//! Failure reports and terminal lines.

use sic::failure::{
    default_suggested_action, emit_failure, format_human, reported, to_json, to_toml, FailureKind,
    FailureSerializeError, OutputFormat, ResolverFailure,
};
use sic::term::{format_fixed_width, write_error, write_success};
use sic::version::Version;

fn v(s: &str) -> Version {
    Version::new(s).unwrap()
}

fn emitted(f: &ResolverFailure, format: OutputFormat) -> String {
    emit_failure(f, format, false).unwrap()
}

#[test]
fn build_unsatisfiable_roundtrip_toml() {
    let f = ResolverFailure::unsatisfiable(
        "helix",
        Some(">= 25"),
        Some(vec![v("24.03"), v("24.02")]),
        Some(vec!["ripgrep >= 13".to_string()]),
    );
    let toml_str = to_toml(&f).unwrap();
    assert!(toml_str.contains("[failure]"));
    assert!(toml_str.contains("type = \"unsatisfiable\""));
    assert!(toml_str.contains("package = \"helix\""));
    assert!(toml_str.contains("version_constraint = \">= 25\""));
    let root: toml::Table = toml_str.parse().unwrap();
    let failure = root["failure"].as_table().unwrap();
    assert_eq!(failure["type"].as_str(), Some("unsatisfiable"));
    assert_eq!(failure["package"].as_str(), Some("helix"));
    assert_eq!(failure["version_constraint"].as_str(), Some(">= 25"));
    assert_eq!(failure["available_versions"].as_array().map(|av| av.len()), Some(2));
    assert_eq!(failure["available_versions"][0].as_str(), Some("24.03"));
    assert_eq!(failure["dependencies"][0].as_str(), Some("ripgrep >= 13"));
    assert_eq!(failure.len(), 5);
}

#[test]
fn build_conflict_roundtrip_json() {
    let f = ResolverFailure::conflict("a", Some(vec!["b".to_string()]));
    let json_str = to_json(&f).unwrap();
    assert!(json_str.contains("conflict"));
    assert!(json_str.contains("\"package\""));
    assert!(json_str.contains("\"conflicting_packages\""));
    let parsed: serde_json::Value = serde_json::from_str(&json_str).unwrap();
    assert_eq!(parsed["type"].as_str(), Some("conflict"));
    assert_eq!(parsed["package"].as_str(), Some("a"));
}

#[test]
fn public_api_unsatisfiable_toml_has_failure_section() {
    let f = ResolverFailure::unsatisfiable(
        "helix",
        Some(">= 25"),
        Some(vec![v("24.03"), v("24.02")]),
        Some(vec!["ripgrep >= 13".to_string()]),
    );
    let s = to_toml(&f).unwrap();
    assert!(s.contains("[failure]"));
    assert!(s.contains("type = \"unsatisfiable\""));
    assert!(s.contains("package = \"helix\""));
}

#[test]
fn public_api_conflict_json_valid() {
    let f = ResolverFailure::conflict("a", Some(vec!["b".to_string()]));
    let s = to_json(&f).unwrap();
    let v: serde_json::Value = serde_json::from_str(&s).unwrap();
    assert_eq!(v.get("type").and_then(|t| t.as_str()), Some("conflict"));
    assert_eq!(v.get("package").and_then(|p| p.as_str()), Some("a"));
}

#[test]
fn machine_readable_reports_hold_the_suggested_action() {
    let mut f = ResolverFailure::has_dependents("ripgrep", vec!["helix".to_string()]);
    let action = "remove dependents first or use --force";
    let json: serde_json::Value =
        serde_json::from_str(&emitted(&f, OutputFormat::Json)).unwrap();
    assert_eq!(json["suggested_action"].as_str(), Some(action));
    assert_eq!(json["type"].as_str(), Some("has_dependents"));
    let root: toml::Table = emitted(&f, OutputFormat::Toml).parse().unwrap();
    assert_eq!(root["failure"]["suggested_action"].as_str(), Some(action));
    assert_eq!(reported(&f).suggested_action.as_deref(), Some(action));
    f.suggested_action = Some("ask helix".to_string());
    let json: serde_json::Value =
        serde_json::from_str(&emitted(&f, OutputFormat::Json)).unwrap();
    assert_eq!(json["suggested_action"].as_str(), Some("ask helix"));
    let kinds = [
        (ResolverFailure::cycle("a"), "cycle"),
        (ResolverFailure::platform_mismatch("a"), "platform_mismatch"),
        (ResolverFailure::not_in_lockfile("a"), "not_in_lockfile"),
        (ResolverFailure::other(None, None), "other"),
    ];
    for (f, name) in kinds {
        assert!(to_json(&f).unwrap().contains(&format!("\"type\": \"{}\"", name)));
    }
}

#[test]
fn build_cycle_and_other() {
    let cycle = ResolverFailure::cycle("foo");
    assert_eq!(cycle.kind, FailureKind::Cycle);
    assert_eq!(cycle.package.as_deref(), Some("foo"));
    assert_eq!(
        cycle.suggested_action(),
        "circular dependency; remove or relax one dependency"
    );

    let other = ResolverFailure::other(Some("pkg"), Some("missing"));
    assert_eq!(other.kind, FailureKind::Other);
    assert_eq!(other.suggested_action(), "check input and try again");
}

#[test]
fn human_format_contains_summary_and_suggested_action() {
    let f = ResolverFailure::unsatisfiable(
        "helix",
        Some("ripgrep >= 13"),
        Some(vec![v("12.0")]),
        None,
    );
    let human = format_human(&f);
    assert!(human.contains("Unsatisfiable"));
    assert!(human.contains("helix"));
    assert!(human.contains("ripgrep >= 13"));
    assert!(human.contains("12.0"));
    assert!(human.contains("Suggested:"));
    assert!(human.contains("downgrade request or wait for newer release"));
}

#[test]
fn emit_failure_all_formats_no_panic() {
    let f = ResolverFailure::conflict("a", Some(vec!["b".to_string()]));
    let human_s = emitted(&f, OutputFormat::Human);
    assert!(!human_s.is_empty());
    assert!(human_s.contains("Conflict"));
    assert!(human_s.contains("Suggested:"));

    let toml_s = emitted(&f, OutputFormat::Toml);
    assert!(toml_s.contains("[failure]"));

    let json_s = emitted(&f, OutputFormat::Json);
    let _: serde_json::Value = serde_json::from_str(&json_s).unwrap();
}

#[test]
fn public_api_emit_failure_all_formats() {
    let f = ResolverFailure::unsatisfiable("x", None, None, None);
    assert!(!emitted(&f, OutputFormat::Human).is_empty());
    assert!(emitted(&f, OutputFormat::Toml).contains("[failure]"));
    let _: serde_json::Value = serde_json::from_str(&emitted(&f, OutputFormat::Json)).unwrap();
}

#[test]
fn empty_suggested_action_uses_default() {
    let mut f = ResolverFailure::unsatisfiable("pkg", None, None, None);
    assert!(f.suggested_action().contains("downgrade"));
    f.suggested_action = Some(String::new());
    assert_eq!(f.suggested_action(), "downgrade request or wait for newer release");
    f.suggested_action = Some("  ".to_string());
    assert_eq!(f.suggested_action(), "downgrade request or wait for newer release");
    f.suggested_action = Some("try again".to_string());
    assert_eq!(f.suggested_action(), "try again");
}

#[test]
fn default_suggested_actions_per_kind() {
    assert_eq!(
        default_suggested_action(FailureKind::Unsatisfiable),
        "downgrade request or wait for newer release"
    );
    assert_eq!(
        default_suggested_action(FailureKind::Conflict),
        "remove or change one of the conflicting packages"
    );
    assert_eq!(
        default_suggested_action(FailureKind::PlatformMismatch),
        "package not available for this platform"
    );
    assert_eq!(
        default_suggested_action(FailureKind::Cycle),
        "circular dependency; remove or relax one dependency"
    );
    assert_eq!(
        default_suggested_action(FailureKind::NotInLockfile),
        "add package to lockfile or run without strict mode"
    );
    assert_eq!(
        default_suggested_action(FailureKind::HasDependents),
        "remove dependents first or use --force"
    );
    assert_eq!(
        default_suggested_action(FailureKind::Other),
        "check input and try again"
    );
}

#[test]
fn build_has_dependents() {
    let f = ResolverFailure::has_dependents("ripgrep", vec!["helix".to_string()]);
    assert_eq!(f.kind, FailureKind::HasDependents);
    assert_eq!(f.package.as_deref(), Some("ripgrep"));
    assert_eq!(
        f.conflicting_packages.as_deref().map(|v| v.to_vec()),
        Some(vec!["helix".to_string()])
    );
    assert_eq!(f.suggested_action(), "remove dependents first or use --force");
}

#[test]
fn build_not_in_lockfile() {
    let f = ResolverFailure::not_in_lockfile("foo");
    assert_eq!(f.kind, FailureKind::NotInLockfile);
    assert_eq!(f.package.as_deref(), Some("foo"));
    assert_eq!(
        f.suggested_action(),
        "add package to lockfile or run without strict mode"
    );
    let human = format_human(&f);
    assert!(human.contains("Not in lockfile"));
    assert!(human.contains("foo"));
}

#[test]
fn public_api_format_human_contains_suggested() {
    let f = ResolverFailure::cycle("pkg");
    let human = format_human(&f);
    assert!(human.contains("Cycle"));
    assert!(human.contains("pkg"));
    assert!(human.contains("Suggested:"));
    assert!(human.contains("circular dependency"));
}

#[test]
fn human_format_exactly() {
    let f = ResolverFailure::unsatisfiable(
        "helix",
        Some(">= 25"),
        Some(vec![v("24.03"), v("24.02")]),
        Some(vec!["ripgrep >= 13".to_string(), "fd > 1".to_string()]),
    );
    assert_eq!(
        format_human(&f),
        "Unsatisfiable: helix requires >= 25; available: 24.03, 24.02\n\
         dependencies: ripgrep >= 13, fd > 1\n\n\
         Suggested: downgrade request or wait for newer release\n\n"
    );
    let f = ResolverFailure::platform_mismatch("x");
    assert_eq!(
        f.to_string(),
        "Platform mismatch: x\nSuggested: package not available for this platform\n\n"
    );
    let f = ResolverFailure::other(None, None);
    assert_eq!(format_human(&f), "Other\nSuggested: check input and try again\n\n");
    let f = ResolverFailure::conflict("a", Some(vec!["b".to_string()]));
    assert_eq!(
        format_human(&f),
        "Conflict: a\nconflicting packages: b\n\n\
         Suggested: remove or change one of the conflicting packages\n\n"
    );
}

#[test]
fn colored_failure() {
    let f = ResolverFailure::cycle("a");
    assert_eq!(
        emit_failure(&f, OutputFormat::Human, true).unwrap(),
        "\u{1b}[31mCycle: a\u{1b}[39m\n\
         \u{1b}[33mSuggested: circular dependency; remove or relax one dependency\n\u{1b}[39m"
    );
    let f = ResolverFailure::has_dependents("a", vec!["b".to_string()]);
    assert_eq!(
        emit_failure(&f, OutputFormat::Human, true).unwrap(),
        "\u{1b}[31mHas dependents: a\u{1b}[39m\nconflicting packages: b\n\n\
         \u{1b}[33mSuggested: remove dependents first or use --force\n\u{1b}[39m"
    );
}

#[test]
fn encoding_errors() {
    assert_eq!(
        FailureSerializeError::Json("j".to_string()).to_string(),
        "JSON serialization failed: j"
    );
    assert_eq!(
        FailureSerializeError::Toml("t".to_string()).to_string(),
        "TOML serialization failed: t"
    );
    assert_eq!(FailureSerializeError::Io("i".to_string()).to_string(), "write failed: i");
}

#[test]
fn format_fixed_width_pads_short() {
    assert_eq!(format_fixed_width("hi", 4), "hi  ");
}

#[test]
fn format_fixed_width_truncates_long() {
    assert_eq!(format_fixed_width("abcdefgh", 5), "ab...");
}

#[test]
fn format_fixed_width_edges() {
    assert_eq!(format_fixed_width("abc", 0), "");
    assert_eq!(format_fixed_width("abcd", 3), "abc");
    assert_eq!(format_fixed_width("äöüß", 4), "äöüß");
    assert_eq!(format_fixed_width("äöüßx", 4), "ä...");
}

#[test]
fn terminal_lines() {
    assert_eq!(write_error(false, "bad"), "bad\n");
    assert_eq!(write_error(true, "bad"), "\u{1b}[31mbad\u{1b}[39m\n");
    assert_eq!(write_success(false, "good"), "good\n");
    assert_eq!(write_success(true, "good"), "\u{1b}[32mgood\u{1b}[39m\n");
}

#[test]
fn documents_hold_the_fields_in_order() {
    let f = ResolverFailure::conflict("a", Some(vec!["b".to_string()]));
    assert_eq!(
        to_json(&f).unwrap(),
        "{\n  \"type\": \"conflict\",\n  \"package\": \"a\",\n  \"conflicting_packages\": [\n    \
         \"b\"\n  ]\n}"
    );
    assert_eq!(
        to_toml(&f).unwrap(),
        "[failure]\ntype = \"conflict\"\npackage = \"a\"\nconflicting_packages = [\"b\"]\n"
    );
    let f = ResolverFailure::unsatisfiable("a", Some(">= 2"), Some(vec![v("1")]), None);
    assert_eq!(
        emitted(&f, OutputFormat::Toml),
        "[failure]\ntype = \"unsatisfiable\"\npackage = \"a\"\nversion_constraint = \">= 2\"\n\
         available_versions = [\"1\"]\n\
         suggested_action = \"downgrade request or wait for newer release\"\n"
    );
}
