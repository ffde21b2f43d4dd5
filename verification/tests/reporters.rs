//! Report text builders: form references, workflow-command
//! annotations, configuration comment blocks, envelope metadata and the
//! extension allowlist.

use std::path::PathBuf;

use dry_core::adapters::config_doc_gen::comment_block;
use dry_core::adapters::reporters::format_form_ref;
use dry_core::adapters::reporters::github_annotations::{
    format_message, gha_escape_message, gha_escape_property, render_annotation, severity_for,
    tier_label,
};
use dry_core::adapters::reporters::json::{EnvelopeMeta, ScopeApplied};
use dry_core::adapters::source::{extension_is_allowed, SourceError};
use dry_core::domain::{FilePath, FormKind, FormRef, LineColumn, ResolvedScope, Span, Tier};
use dry_core::test_support::{make_form_ref_at, make_form_ref_col5};

fn form_ref(path: &str, line: u32) -> FormRef {
    FormRef::new(
        FilePath::from(PathBuf::from(path)),
        Span::try_new(LineColumn::new(line, 0), LineColumn::new(line + 2, 12)).unwrap(),
        FormKind::Production,
    )
}

#[test]
fn format_form_ref_is_one_based_column() {
    let f = form_ref("src/a.rs", 10);
    assert_eq!(format_form_ref(&f), "src/a.rs:10:1");
}

#[test]
fn format_form_ref_saturates_the_column() {
    let f = FormRef::new(
        FilePath::new("a.rs"),
        Span::try_new(LineColumn::new(1, u32::MAX), LineColumn::new(2, 0)).unwrap(),
        FormKind::Test,
    );
    assert_eq!(format_form_ref(&f), format!("a.rs:1:{}", u32::MAX));
}

#[test]
fn severity_and_label_per_tier() {
    assert_eq!(severity_for(Tier::AutoRefactor), "error");
    assert_eq!(severity_for(Tier::ReviewFirst), "warning");
    assert_eq!(severity_for(Tier::Advisory), "notice");
    assert_eq!(tier_label(Tier::ReviewFirst), "review_first");
}

#[test]
fn workflow_command_escapes() {
    assert_eq!(gha_escape_message("50% done\r\nnext"), "50%25 done%0D%0Anext");
    assert_eq!(gha_escape_property("C:\\a,b%"), "C%3A\\a%2Cb%25");
    assert_eq!(gha_escape_message("a:b,c"), "a:b,c");
}

#[test]
fn annotation_message_with_and_without_partner() {
    let other = make_form_ref_at("src/b.rs", 40);
    assert_eq!(
        format_message("0.93", Tier::ReviewFirst, Some(&other)),
        "Duplicate of src/b.rs:40 (score=0.93, tier=review_first)"
    );
    assert_eq!(
        format_message("1.00", Tier::AutoRefactor, None),
        "Duplicate cluster (score=1.00, tier=auto_refactor)"
    );
}

#[test]
fn annotation_line_has_positions_and_escaped_fields() {
    let primary = make_form_ref_col5("src/x,y.rs", 3);
    let other = make_form_ref_at("src/z.rs", 9);
    assert_eq!(
        render_annotation(&primary, Some(&other), Tier::Advisory, "0.71"),
        "::notice file=src/x%2Cy.rs,line=3,col=1,endLine=5,endColumn=6::Duplicate of src/z.rs:9 (score=0.71, tier=advisory)"
    );
}

#[test]
fn comment_block_prefixes_each_line() {
    assert_eq!(comment_block("first\n\nthird"), "# first\n#\n# third\n");
    assert_eq!(comment_block("a\r\nb\n"), "# a\n# b\n");
    assert_eq!(comment_block(""), "");
    assert_eq!(comment_block("\n"), "#\n");
}

#[test]
fn envelope_meta_and_scope_applied_store_fields() {
    let m = EnvelopeMeta::new(
        "dry4rs".to_string(),
        "0.1.0".to_string(),
        "rust".to_string(),
        "2026-05-24T22:00:00Z".to_string(),
        "default".to_string(),
    );
    assert_eq!(m.tool, "dry4rs");
    assert_eq!(m.timestamp, "2026-05-24T22:00:00Z");
    let s = ScopeApplied::from_resolved(ResolvedScope { across_crate: false, ..ResolvedScope::default() });
    assert!(!s.across_crate);
    assert!(s.within_crate && s.within_module && s.across_module && s.crate_aware);
}

#[test]
fn extension_allowlist() {
    let allowed = vec!["rs".to_string(), "ts".to_string()];
    assert!(extension_is_allowed(Some("rs"), &allowed));
    assert!(!extension_is_allowed(Some("py"), &allowed));
    assert!(!extension_is_allowed(None, &allowed));
    assert!(extension_is_allowed(None, &[]));
    assert!(extension_is_allowed(Some("py"), &[]));
    assert_eq!(SourceError::NoRoots.to_string(), "no roots configured for enumeration");
}
