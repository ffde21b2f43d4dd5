//! Domain value types: spans, trees, forms, identities, enums,
//! summaries, configuration sections and templates.

use dry_core::domain::summary::summary_counts;
use std::collections::HashSet;
use std::path::{Path, PathBuf};

use dry_core::domain::{
    DistinctValue, Divergence, FilePath, Fingerprint, FormKind, FormRef, LeafClass, LeafToken,
    LineColumn, NormalizedForm, NormalizedTree, OutputConfig, ScopeConfig, Span, SpanError,
    StructuralLocation, SubElement, Substitution, Summary, Tier, WalkConfig,
};
use dry_core::cli::Format;
use dry_core::test_support::make_span;

// ---- span ----

#[test]
fn line_column_new_stores_fields() {
    let p = LineColumn::new(7, 3);
    assert_eq!(p.line, 7);
    assert_eq!(p.column, 3);
}

#[test]
fn line_column_origin_is_one_zero() {
    let p = LineColumn::new(1, 0);
    assert_eq!(p.line, 1);
    assert_eq!(p.column, 0);
}

#[test]
fn span_try_new_accepts_equal_start_and_end() {
    let pos = LineColumn::new(1, 0);
    let span = Span::try_new(pos, pos).expect("equal start/end is a single position");
    assert_eq!(span.start, pos);
    assert_eq!(span.end, pos);
}

#[test]
fn span_try_new_accepts_multi_line_range() {
    let start = LineColumn::new(1, 2);
    let end = LineColumn::new(3, 12);
    let span = Span::try_new(start, end).expect("forward range is valid");
    assert_eq!(span.start, start);
    assert_eq!(span.end, end);
}

#[test]
fn span_try_new_rejects_inverted_line() {
    let start = LineColumn::new(5, 0);
    let end = LineColumn::new(2, 0);
    let err = Span::try_new(start, end).expect_err("start > end must error");
    assert_eq!(err, SpanError::InvertedRange { start, end });
}

#[test]
fn span_try_new_rejects_inverted_column_same_line() {
    let start = LineColumn::new(1, 10);
    let end = LineColumn::new(1, 3);
    let err =
        Span::try_new(start, end).expect_err("start col > end col on same line must error");
    assert_eq!(err, SpanError::InvertedRange { start, end });
}

#[test]
fn span_error_renders_useful_message() {
    let err = SpanError::InvertedRange {
        start: LineColumn::new(3, 0),
        end: LineColumn::new(1, 0),
    };
    let msg = err.to_string();
    assert!(msg.contains("end-inclusive"), "msg: {msg}");
    assert!(msg.contains("greater"), "msg: {msg}");
}

#[test]
fn line_column_ordering_is_line_then_column() {
    let a = LineColumn::new(2, 9);
    let b = LineColumn::new(3, 0);
    assert!(a.is_at_or_before(&b));
    assert!(!b.is_at_or_before(&a));
    assert!(a.is_at_or_before(&a));
}

// ---- tree ----

#[test]
fn leaf_token_new_stores_fields() {
    let tok = LeafToken::new(LeafClass::Ident, "foo".to_string());
    assert_eq!(tok.class, LeafClass::Ident);
    assert_eq!(tok.lexeme, "foo");
}

#[test]
fn normalized_tree_new_builds_internal_node() {
    let node = NormalizedTree::new("ItemFn".to_string(), 0xABCD, Vec::new(), make_span());
    assert_eq!(node.label, "ItemFn");
    assert_eq!(node.fp, 0xABCD);
    assert!(node.children.is_empty());
    assert!(node.leaf.is_none());
    assert!(!node.is_leaf());
}

#[test]
fn normalized_tree_leaf_builds_leaf_node() {
    let tok = LeafToken::new(LeafClass::Ident, "foo".to_string());
    let node = NormalizedTree::leaf("Ident".to_string(), 0x1234, tok.clone(), make_span());
    assert_eq!(node.label, "Ident");
    assert_eq!(node.fp, 0x1234);
    assert!(node.children.is_empty());
    assert_eq!(node.leaf, Some(tok));
    assert!(node.is_leaf());
}

#[test]
fn leaf_class_labels() {
    assert_eq!(LeafClass::Ident.as_str(), "ident");
    assert_eq!(LeafClass::Literal.as_str(), "literal");
    assert_eq!(LeafClass::Keyword.as_str(), "keyword");
    assert_eq!(LeafClass::Punct.as_str(), "punct");
    assert_eq!(LeafClass::Lifetime.as_str(), "lifetime");
}

#[test]
fn tree_clone_is_deep_and_equal() {
    let leaf = NormalizedTree::leaf(
        "Ident".to_string(),
        1,
        LeafToken::new(LeafClass::Ident, "x".to_string()),
        make_span(),
    );
    let t = NormalizedTree::new("Block".to_string(), 2, vec![leaf], make_span());
    assert_eq!(t.clone(), t);
}

// ---- enums ----

#[test]
fn tier_ordering_matches_threshold_progression() {
    assert!(Tier::AutoRefactor < Tier::ReviewFirst);
    assert!(Tier::ReviewFirst < Tier::Advisory);
}

#[test]
fn enum_labels_match_the_wire_vocabulary() {
    assert_eq!(FormKind::Production.as_str(), "production");
    assert_eq!(FormKind::Test.as_str(), "test");
    assert_eq!(FormKind::Doctest.as_str(), "doctest");
    assert_eq!(Tier::AutoRefactor.as_str(), "auto_refactor");
    assert_eq!(Tier::ReviewFirst.as_str(), "review_first");
    assert_eq!(Tier::Advisory.as_str(), "advisory");
}

// ---- identity ----

#[test]
fn file_path_from_pathbuf_round_trips() {
    let p = FilePath::from(PathBuf::from("crates/dry-core/src/lib.rs"));
    assert_eq!(p.as_path(), Path::new("crates/dry-core/src/lib.rs"));
}

#[test]
fn file_path_from_path_ref_clones_into_pathbuf() {
    let raw = Path::new("src/lib.rs");
    let p = FilePath::from(raw);
    assert_eq!(p.as_path(), raw);
}

#[test]
fn file_path_from_str_via_new_round_trips() {
    let p = FilePath::new("src/lib.rs");
    assert_eq!(p.as_path(), Path::new("src/lib.rs"));
}

#[test]
fn file_path_display_renders_the_path() {
    let p = FilePath::new("src/lib.rs");
    assert_eq!(p.to_string(), "src/lib.rs");
}

fn extension_is_rs<P: AsRef<Path>>(p: P) -> bool {
    p.as_ref().extension().is_some_and(|e| e == "rs")
}

#[test]
fn file_path_as_ref_path_works_with_path_api() {
    let p = FilePath::new("crates/dry-core/src/domain/identity.rs");
    assert!(extension_is_rs(&p));
}

#[test]
fn fingerprint_new_stores_value() {
    let fp = Fingerprint::new(42);
    assert_eq!(fp.value(), 42);
}

#[test]
fn fingerprint_from_u64_stores_value() {
    let fp = Fingerprint::from(0xABCD);
    assert_eq!(fp.value(), 0xABCD);
}

#[test]
fn fingerprint_display_renders_padded_hex() {
    let fp = Fingerprint::new(0xDEAD_BEEF);
    assert_eq!(fp.to_string(), "00000000deadbeef");
}

#[test]
fn fingerprint_equality_uses_inner_value() {
    assert_eq!(Fingerprint::new(7), Fingerprint::new(7));
    assert_ne!(Fingerprint::new(7), Fingerprint::new(8));
}

#[test]
fn fingerprint_hex_edges() {
    assert_eq!(Fingerprint::new(0).to_string(), "0000000000000000");
    assert_eq!(Fingerprint::new(u64::MAX).to_string(), "ffffffffffffffff");
    assert_eq!(Fingerprint::new(0x0123_4567_89ab_cdef).to_string(), "0123456789abcdef");
}

// ---- form ----

fn populated_location() -> StructuralLocation {
    StructuralLocation {
        crate_id: Some("dry_core".to_string()),
        module_segments: vec!["domain".to_string(), "form".to_string()],
    }
}

#[test]
fn normalized_form_new_stores_all_fields() {
    let fps: HashSet<u64> = [1_u64, 2, 3, 4].into_iter().collect();
    let form = NormalizedForm::new(FormKind::Production, fps.clone(), make_span(), 17, 3);
    assert_eq!(form.kind, FormKind::Production);
    assert_eq!(form.fingerprint_set, fps);
    assert_eq!(form.node_count, 17);
    assert_eq!(form.line_count, 3);
    assert!(form.identifier_set.is_empty());
    assert!(form.qualified_name.is_empty());
    assert!(form.location.is_default());
}

#[test]
fn normalized_form_with_empty_fingerprint_set_is_well_formed() {
    let form = NormalizedForm::new(FormKind::Doctest, HashSet::new(), make_span(), 0, 0);
    assert!(form.fingerprint_set.is_empty());
}

#[test]
fn normalized_form_with_context_stores_all_fields() {
    let fps: HashSet<u64> = [1_u64, 2, 3].into_iter().collect();
    let identifiers = vec!["x".to_string(), "y".to_string(), "z".to_string()];
    let qname = vec![
        "my_module".to_string(),
        "MyType".to_string(),
        "foo".to_string(),
    ];
    let form = NormalizedForm::with_context(
        FormKind::Production,
        fps.clone(),
        identifiers.clone(),
        qname.clone(),
        make_span(),
        17,
        3,
    );
    assert_eq!(form.fingerprint_set, fps);
    assert_eq!(form.identifier_set, identifiers);
    assert_eq!(form.qualified_name, qname);
}

#[test]
fn normalized_form_identifier_set_preserves_emission_order_and_duplicates() {
    let identifiers = vec!["x".to_string(), "y".to_string(), "x".to_string()];
    let form = NormalizedForm::with_context(
        FormKind::Production,
        HashSet::new(),
        identifiers.clone(),
        Vec::new(),
        make_span(),
        0,
        0,
    );
    assert_eq!(form.identifier_set, identifiers);
    assert_eq!(form.identifier_set[0], form.identifier_set[2]);
}

#[test]
fn normalized_form_qualified_name_is_path_components_not_joined() {
    let form = NormalizedForm::with_context(
        FormKind::Test,
        HashSet::new(),
        Vec::new(),
        vec!["my_crate".into(), "tests".into(), "the_test_fn".into()],
        make_span(),
        0,
        0,
    );
    assert_eq!(form.qualified_name.len(), 3);
    assert_eq!(form.qualified_name[0], "my_crate");
    assert_eq!(form.qualified_name[2], "the_test_fn");
}

#[test]
fn structural_location_default_is_unknown_sentinel() {
    let loc = StructuralLocation::default();
    assert_eq!(loc.crate_id, None);
    assert!(loc.module_segments.is_empty());
    assert!(loc.is_default());
}

#[test]
fn structural_location_is_default_truth_table() {
    assert!(StructuralLocation::default().is_default());
    let crate_only = StructuralLocation {
        crate_id: Some("dry_core".to_string()),
        module_segments: Vec::new(),
    };
    assert!(!crate_only.is_default());
    let module_only = StructuralLocation {
        crate_id: None,
        module_segments: vec!["domain".to_string()],
    };
    assert!(!module_only.is_default());
    assert!(!populated_location().is_default());
}

#[test]
fn normalized_form_with_location_is_additive_to_other_fields() {
    let fps: HashSet<u64> = [1_u64, 2, 3].into_iter().collect();
    let base = NormalizedForm::with_context(
        FormKind::Test,
        fps.clone(),
        vec!["a".to_string()],
        vec!["mod_a".to_string()],
        make_span(),
        9,
        4,
    );
    let located = base.clone().with_location(populated_location());
    assert_eq!(located.kind, base.kind);
    assert_eq!(located.fingerprint_set, base.fingerprint_set);
    assert_eq!(located.identifier_set, base.identifier_set);
    assert_eq!(located.qualified_name, base.qualified_name);
    assert_eq!(located.span, base.span);
    assert_eq!(located.node_count, base.node_count);
    assert_eq!(located.line_count, base.line_count);
    assert_eq!(located.location, populated_location());
}

#[test]
fn form_ref_new_stores_fields() {
    let file = FilePath::from(PathBuf::from("src/lib.rs"));
    let span = make_span();
    let r = FormRef::new(file.clone(), span, FormKind::Production);
    assert_eq!(r.file, file);
    assert_eq!(r.span, span);
    assert_eq!(r.kind, FormKind::Production);
}

// ---- summary ----

#[test]
fn new_starts_empty() {
    let s = Summary::new();
    assert_eq!(s.total_forms, 0);
    assert!(s.by_tier.is_empty());
    assert!(s.by_kind.is_empty());
}

#[test]
fn default_matches_new() {
    assert_eq!(Summary::default(), Summary::new());
}

// ---- configuration sections ----

#[test]
fn scope_config_is_default_when_every_field_is_none() {
    let c = ScopeConfig::default();
    assert!(c.is_default());
    assert_eq!(c.within_crate, None);
    assert_eq!(c.across_crate, None);
    assert_eq!(c.within_module, None);
    assert_eq!(c.across_module, None);
}

#[test]
fn scope_config_any_field_some_unsets_default() {
    let with_within_crate = ScopeConfig {
        within_crate: Some(false),
        ..ScopeConfig::default()
    };
    assert!(!with_within_crate.is_default());

    let with_across_crate = ScopeConfig {
        across_crate: Some(false),
        ..ScopeConfig::default()
    };
    assert!(!with_across_crate.is_default());

    let with_within_module = ScopeConfig {
        within_module: Some(false),
        ..ScopeConfig::default()
    };
    assert!(!with_within_module.is_default());

    let with_across_module = ScopeConfig {
        across_module: Some(false),
        ..ScopeConfig::default()
    };
    assert!(!with_across_module.is_default());
}

#[test]
fn output_config_is_default_when_every_field_is_none() {
    let c = OutputConfig::default();
    assert!(c.is_default());
    let with_format = OutputConfig {
        format: Some(Format::Json),
        title: None,
        subtitle: None,
    };
    assert!(!with_format.is_default());
    let with_title = OutputConfig {
        format: None,
        title: Some("hello".to_string()),
        subtitle: None,
    };
    assert!(!with_title.is_default());
    let with_subtitle = OutputConfig {
        format: None,
        title: None,
        subtitle: Some("world".to_string()),
    };
    assert!(!with_subtitle.is_default());
}

#[test]
fn walk_config_distinguishes_unset_from_empty_extensions() {
    let unset = WalkConfig::default();
    assert!(unset.extensions.is_none());
    assert!(unset.is_default());

    let empty = WalkConfig {
        include_ignored: None,
        extensions: Some(Vec::new()),
    };
    assert_eq!(empty.extensions, Some(Vec::new()));
    assert!(!empty.is_default());
}

#[test]
fn section_overlay_takes_the_primary_knob_first() {
    let lang = OutputConfig { format: Some(Format::Markdown), title: None, subtitle: None };
    let shared = OutputConfig {
        format: Some(Format::Json),
        title: Some("t".to_string()),
        subtitle: None,
    };
    let merged = lang.or(shared);
    assert_eq!(merged.format, Some(Format::Markdown));
    assert_eq!(merged.title, Some("t".to_string()));
    assert_eq!(merged.subtitle, None);

    let walk = WalkConfig { include_ignored: None, extensions: Some(vec!["ts".to_string()]) }
        .or(WalkConfig { include_ignored: Some(true), extensions: Some(vec!["rs".to_string()]) });
    assert_eq!(walk.include_ignored, Some(true));
    assert_eq!(walk.extensions, Some(vec!["ts".to_string()]));

    let scope = ScopeConfig { within_crate: Some(false), ..ScopeConfig::default() }
        .or(ScopeConfig { within_crate: Some(true), across_module: Some(false), ..ScopeConfig::default() });
    assert_eq!(scope.within_crate, Some(false));
    assert_eq!(scope.across_module, Some(false));
    assert_eq!(scope.across_crate, None);
}

#[test]
fn scope_config_resolves_unset_axes_to_allow() {
    let c = ScopeConfig { across_crate: Some(false), ..ScopeConfig::default() };
    let s = c.resolved(false);
    assert!(s.within_crate);
    assert!(!s.across_crate);
    assert!(s.within_module);
    assert!(s.across_module);
    assert!(!s.crate_aware);
}

// ---- template ----

fn sp() -> Span {
    Span::try_new(LineColumn::new(1, 0), LineColumn::new(1, 4)).expect("valid span")
}

#[test]
fn constructors_store_fields() {
    let sub = Substitution::new(vec![SubElement::new("a".into(), 7, sp())]);
    assert_eq!(sub.elements.len(), 1);
    assert_eq!(sub.elements[0].fp, 7);
    let dv = DistinctValue::new(0, "<absent>".into(), 2);
    assert_eq!(dv.count, 2);
    let d = Divergence::new(2, 1, 3, vec![dv]);
    assert_eq!(d.distinct, 2);
    assert_eq!(d.differing, 1);
    assert_eq!(d.members, 3);
}

#[test]
fn summary_counts_tally_tiers_and_kinds() {
    let entries = vec![
        (Tier::Advisory, Some(FormKind::Test)),
        (Tier::AutoRefactor, Some(FormKind::Production)),
        (Tier::Advisory, None),
        (Tier::Advisory, Some(FormKind::Production)),
    ];
    let (tiers, kinds) = summary_counts(&entries);
    assert_eq!(tiers, vec![(Tier::AutoRefactor, 1), (Tier::Advisory, 3)]);
    assert_eq!(kinds, vec![(FormKind::Production, 2), (FormKind::Test, 1)]);
    assert_eq!(summary_counts(&[]), (vec![], vec![]));
}
