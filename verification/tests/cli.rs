//! Command-line helpers: adapter metadata, subcommands, the
//! threshold-mode label and the ISO-8601 timestamp.

use dry_core::adapters::config_doc_gen::{example_file_name, header_comment, schema_file_name};
use std::path::PathBuf;

use dry_core::cli::run::{current_timestamp, format_unix_seconds_iso8601, threshold_mode_label};
use dry_core::cli::{AdapterMeta, Command, OutputDestination, ThresholdMode, VERSION};

const TEST_META: AdapterMeta = AdapterMeta {
    tool_name: "test-adapter",
    display_name: "TestLang",
    tool_version: "0.0.0",
    long_version: "0.0.0",
    about: "test about",
    long_about: "test long about",
    after_help: "",
    config_file_name: "test-adapter.toml",
    extensions: &["x"],
    tool_info_uri: "https://example.test/info",
    rule_help_uri: "https://example.test/rules",
    default_excludes: &[],
    forced_excludes: &[],
};

#[test]
fn validate_or_panic_accepts_well_formed_meta() {
    assert_eq!(TEST_META.missing_field(), None);
    TEST_META.validate_or_panic();
}

/// What a caller does before `validate_or_panic`: fail with the message
/// of the first empty required field.
fn validate_or_fail(meta: &AdapterMeta) {
    if let Some(message) = meta.missing_field() {
        panic!("{message}");
    }
    meta.validate_or_panic();
}

#[test]
#[should_panic(expected = "tool_name")]
fn validate_or_panic_rejects_empty_tool_name() {
    validate_or_fail(&AdapterMeta { tool_name: "", ..TEST_META });
}

#[test]
#[should_panic(expected = "extensions")]
fn validate_or_panic_rejects_empty_extensions() {
    validate_or_fail(&AdapterMeta { extensions: &[], ..TEST_META });
}

#[test]
#[should_panic(expected = "config_file_name")]
fn validate_or_panic_rejects_empty_config_file_name() {
    validate_or_fail(&AdapterMeta { config_file_name: "", ..TEST_META });
}

#[test]
fn extensions_owned_returns_owned_strings() {
    let owned = TEST_META.extensions_owned();
    assert_eq!(owned, vec!["x".to_string()]);
}

#[test]
fn validate_or_panic_tolerates_empty_optional_fields() {
    let meta = AdapterMeta {
        after_help: "",
        default_excludes: &[],
        forced_excludes: &[],
        ..TEST_META
    };
    assert_eq!(meta.missing_field(), None);
    meta.validate_or_panic();
}

#[test]
fn missing_field_names_the_first_empty_required_field() {
    assert_eq!(TEST_META.missing_field(), None);
    let bad = AdapterMeta { tool_name: "", ..TEST_META };
    assert_eq!(bad.missing_field(), Some("AdapterMeta::tool_name must be non-empty"));
    let bad = AdapterMeta { extensions: &[], ..TEST_META };
    assert_eq!(
        bad.missing_field(),
        Some("AdapterMeta::extensions must contain at least one entry")
    );
    let bad = AdapterMeta { config_file_name: "", about: "", ..TEST_META };
    assert_eq!(bad.missing_field(), Some("AdapterMeta::about must be non-empty"));
    let bad = AdapterMeta { rule_help_uri: "", ..TEST_META };
    assert_eq!(bad.missing_field(), Some("AdapterMeta::rule_help_uri must be non-empty"));
}

#[test]
fn threshold_mode_labels_round_trip() {
    assert_eq!(threshold_mode_label(ThresholdMode::Strict), "strict");
    assert_eq!(threshold_mode_label(ThresholdMode::Default), "default");
    assert_eq!(threshold_mode_label(ThresholdMode::Lenient), "lenient");
}

#[test]
fn format_unix_seconds_iso8601_handles_epoch() {
    assert_eq!(format_unix_seconds_iso8601(0), "1970-01-01T00:00:00Z");
}

#[test]
fn format_unix_seconds_iso8601_handles_known_timestamps() {
    assert_eq!(
        format_unix_seconds_iso8601(1_779_660_000),
        "2026-05-24T22:00:00Z"
    );
    assert_eq!(
        format_unix_seconds_iso8601(946_684_800),
        "2000-01-01T00:00:00Z"
    );
}

#[test]
fn format_unix_seconds_iso8601_handles_leap_days_and_year_ends() {
    // 2024-02-29T12:34:56Z
    assert_eq!(format_unix_seconds_iso8601(1_709_210_096), "2024-02-29T12:34:56Z");
    // 1999-12-31T23:59:59Z
    assert_eq!(format_unix_seconds_iso8601(946_684_799), "1999-12-31T23:59:59Z");
    // 2100-03-01T00:00:00Z (2100 is not a leap year)
    assert_eq!(format_unix_seconds_iso8601(4_107_542_400), "2100-03-01T00:00:00Z");
    // Years past 9999 keep every digit.
    assert_eq!(format_unix_seconds_iso8601(253_402_300_800), "10000-01-01T00:00:00Z");
}

#[test]
fn current_timestamp_is_iso8601_z_format() {
    let ts = current_timestamp();
    assert_eq!(ts.len(), 20, "got: {ts}");
    assert!(ts.ends_with('Z'), "got: {ts}");
    assert_eq!(&ts[4..5], "-");
    assert_eq!(&ts[7..8], "-");
    assert_eq!(&ts[10..11], "T");
    assert_eq!(&ts[13..14], ":");
    assert_eq!(&ts[16..17], ":");
}

#[test]
fn command_paths_and_analysis_flag() {
    let report = Command::Report { paths: vec![PathBuf::from("src")] };
    assert!(report.is_analysis());
    assert_eq!(report.paths(), &[PathBuf::from("src")]);
    let init = Command::Init { force: true };
    assert!(!init.is_analysis());
    assert!(init.paths().is_empty());
    assert!(!Command::Ignored.is_analysis());
    assert!(Command::Check { paths: vec![] }.is_analysis());
}

#[test]
fn output_destination_defaults_to_stdout() {
    assert_eq!(OutputDestination::default(), OutputDestination::Stdout);
}

#[test]
fn skeleton_compiles() {
    assert!(VERSION.starts_with("0."));
}

use dry_core::cli::run::{cascade, resolve_extensions, resolve_include_ignored};
use dry_core::cli::Format;

#[test]
fn cascade_prefers_cli_then_configuration_then_fallback() {
    assert_eq!(cascade(Some(Format::Json), Some(Format::Markdown), Format::Text), Format::Json);
    assert_eq!(cascade(None, Some(Format::Markdown), Format::Text), Format::Markdown);
    assert_eq!(cascade(None::<Format>, None, Format::Text), Format::Text);
    assert!(resolve_include_ignored(true, Some(false)));
    assert!(resolve_include_ignored(false, Some(true)));
    assert!(!resolve_include_ignored(false, None));
    assert_eq!(resolve_extensions(None, &TEST_META), vec!["x".to_string()]);
    assert_eq!(resolve_extensions(Some(vec![]), &TEST_META), Vec::<String>::new());
}

#[test]
fn example_and_schema_file_names_follow_the_tool_name() {
    assert_eq!(example_file_name(&TEST_META), "test-adapter.example.toml");
    assert_eq!(schema_file_name(&TEST_META), "test-adapter.schema.json");
    let header = header_comment(&TEST_META);
    assert!(header.starts_with("# test-adapter.example.toml — exhaustive annotated reference for the test-adapter config schema.\n"));
    assert!(header.contains("#     test-adapter init --force\n"));
    assert!(header.contains("minimal `test-adapter.toml` that test-adapter actually"));
    assert!(header.ends_with("#\n\n"));
}
