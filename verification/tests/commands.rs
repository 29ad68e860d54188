//! The commands.

use sic::cli::args::PackagesDir;
use sic::cli::output::print_document;
use sic::cli::status::status_lockfile_info;
use sic::cli::{
    emit_shadowing_warnings, open_workspace, print_plan, report_executed, report_failure,
    resolve_packages_dir, resolve_prefix, run_doctor, run_install, run_remove, run_resolve_only,
    run_search, run_status, run_upgrade, Batch, ColorModeArg, Deed, GlobalOpts, Job, Loaded,
    LockfileModeArg, LockfileStatus, NextStep, OutputFormatArg, Workspace, EXIT_EXEC, EXIT_OK, EXIT_OTHER, EXIT_RESOLVER,
};
use sic::dep_constraint::DepConstraint;
use sic::doctor::{run_doctor_checks, DoctorResult};
use sic::failure::{emit_failure, FailureSerializeError, OutputFormat};
use sic::manifest::Manifest;
use sic::package_name::PackageName;
use sic::prefix::{Found, RootBase};
use sic::resolver::{LockfileMode, Plan, PlanAction, PlanStep, UpgradePolicy};
use sic::source::{Source, SourceHash};
use sic::storage::{
    InstalledDb, InstalledEntry, InstalledLoadError, Lockfile, LockfileLoadError, LockfilePackage,
};
use sic::system_packages::SystemPackages;
use sic::version::Version;

fn opts() -> GlobalOpts {
    GlobalOpts {
        prefix: None,
        packages: None,
        lockfile: None,
        lockfile_mode: LockfileModeArg::Strict,
        output: OutputFormatArg::Human,
        dry_run: false,
        verbose: false,
        yes: false,
        color: ColorModeArg::Auto,
    }
}

fn with_output(output: OutputFormatArg) -> GlobalOpts {
    GlobalOpts { output, ..opts() }
}

fn dry() -> GlobalOpts {
    GlobalOpts { dry_run: true, ..opts() }
}

fn manifest(name: &str, version: &str, depends: &[&str]) -> Manifest {
    Manifest {
        name: PackageName::new(name).unwrap(),
        version: Version::new(version).unwrap(),
        revision: 7,
        source: Source {
            kind: "tarball".to_string(),
            url: format!("https://example.com/{}.tar.gz", name),
            hash: SourceHash::parse("sha256:deadbeef").unwrap(),
        },
        depends: depends.iter().map(|s| DepConstraint::parse(s).unwrap()).collect(),
        depends_any: vec![],
        recommends: vec![],
        conflicts: vec![],
        provides: vec![],
        files: vec![],
        commands: vec![],
    }
}

fn entry(name: &str, version: &str) -> InstalledEntry {
    InstalledEntry {
        name: PackageName::new(name).unwrap(),
        version: Version::new(version).unwrap(),
        revision: 1,
        install_path: format!("pkgs/{}-{}", name, version),
        files: vec![],
        file_checksums: vec![],
    }
}

fn locked(name: &str, version: &str) -> LockfilePackage {
    let m = manifest(name, version, &[]);
    LockfilePackage { name: m.name, version: m.version, revision: 7, source: m.source }
}

fn loaded(packages: Vec<Manifest>, installed: Vec<InstalledEntry>) -> Loaded {
    Loaded {
        packages_dir: "/p".to_string(),
        packages: Ok(packages),
        installed: Ok(InstalledDb::from(installed)),
        lockfile_path: "/l".to_string(),
        lockfile: Ok(None),
        system: SystemPackages::default(),
    }
}

fn workspace(packages: Vec<Manifest>, installed: Vec<InstalledEntry>) -> Workspace {
    open_workspace(&opts(), loaded(packages, installed), false).unwrap()
}

#[test]
fn status_output_json_valid() {
    let out = run_status(
        &with_output(OutputFormatArg::Json),
        false,
        Ok(InstalledDb::default()),
        "",
        Ok(None),
    );
    assert_eq!(out.code, EXIT_OK);
    let _: serde_json::Value =
        serde_json::from_str(&out.stdout).expect("status --output json must emit valid JSON");
    assert_eq!(out.stdout, "[]\n");
}

#[test]
fn status_output_toml_emits_packages_section() {
    let out = run_status(
        &with_output(OutputFormatArg::Toml),
        false,
        Ok(InstalledDb::default()),
        "",
        Ok(None),
    );
    assert_eq!(out.code, EXIT_OK);
    let s = out.stdout;
    assert!(
        s.contains("[packages]") || s.contains("packages"),
        "status --output toml should contain packages"
    );
}

#[test]
fn status_with_a_lockfile() {
    let db = || Ok(InstalledDb::from(vec![entry("a", "1"), entry("b", "1"), entry("c", "1")]));
    let lf = || Ok(Some(Lockfile { packages: vec![locked("a", "1"), locked("b", "2")] }));
    let out = run_status(&opts(), false, db(), "/l", lf());
    assert_eq!(
        out.stdout,
        "a\t1\t(locked 1)\nb\t1\tlocked 2, installed 1\nc\t1\t(not in lockfile)\n"
    );
    let out = run_status(&opts(), false, db(), "", Ok(None));
    assert_eq!(out.stdout, "a\t1\nb\t1\nc\t1\n");
    let out = run_status(&with_output(OutputFormatArg::Json), false, db(), "/l", lf());
    let v: serde_json::Value = serde_json::from_str(&out.stdout).unwrap();
    assert_eq!(v[0]["name"], "a");
    assert_eq!(v[0]["version"], "1");
    assert_eq!(v[0]["revision"], 1);
    assert_eq!(v[0]["install_path"], "pkgs/a-1");
    assert_eq!(v[0]["lockfile_status"], "match");
    assert_eq!(v[0]["locked_version"], "1");
    assert_eq!(v[1]["lockfile_status"], "mismatch");
    assert_eq!(v[1]["locked_version"], "2");
    assert_eq!(v[2]["lockfile_status"], "not_in_lockfile");
    assert!(v[2].get("locked_version").is_none());
    let out = run_status(&with_output(OutputFormatArg::Toml), false, db(), "/l", lf());
    let t: toml::Table = out.stdout.parse().unwrap();
    assert_eq!(t["packages"][1]["locked_version"].as_str(), Some("2"));
    assert_eq!(t["packages"][1]["revision"].as_integer(), Some(1));
    assert_eq!(t["packages"][2]["lockfile_status"].as_str(), Some("not_in_lockfile"));
}

#[test]
fn lockfile_status_of_an_entry() {
    let lf = Lockfile { packages: vec![locked("a", "1"), locked("a", "2")] };
    let (status, version) = status_lockfile_info(&entry("a", "2"), &lf);
    assert_eq!(status, LockfileStatus::Mismatch);
    assert_eq!(version.unwrap().as_str(), "1");
}

#[test]
fn status_errors() {
    let bad = Err(InstalledLoadError::Parse("x".to_string()));
    let out = run_status(&opts(), false, bad, "/l", Ok(None));
    assert_eq!(out.code, EXIT_OTHER);
    assert_eq!(
        out.stderr,
        "sic: failed to load installed.toml: installed.toml parse error: x\n"
    );
    let bad = Err(LockfileLoadError::Parse("y".to_string()));
    let out = run_status(&opts(), true, Ok(InstalledDb::default()), "/l", bad);
    assert_eq!(out.code, EXIT_OTHER);
    assert_eq!(
        out.stderr,
        "\u{1b}[31msic: failed to load lockfile /l: lockfile parse error: y\u{1b}[39m\n"
    );
}

#[test]
fn install_without_packages_exits_non_zero() {
    let message = open_workspace(&opts(), loaded(vec![], vec![]), false).unwrap_err();
    assert_eq!(message, "sic: no packages found in /p");
    assert!(open_workspace(&opts(), loaded(vec![], vec![]), true).is_ok());
}

#[test]
fn workspace_errors() {
    let mut l = loaded(vec![], vec![]);
    l.packages = Err("denied".to_string());
    assert_eq!(
        open_workspace(&opts(), l, true).unwrap_err(),
        "sic: failed to read packages from /p: denied"
    );
    let mut l = loaded(vec![manifest("a", "1", &[])], vec![]);
    l.installed = Err(InstalledLoadError::Io("x".to_string()));
    l.lockfile = Err(LockfileLoadError::Io("y".to_string()));
    assert_eq!(
        open_workspace(&opts(), l, false).unwrap_err(),
        "sic: failed to load installed.toml: installed.toml read error: x"
    );
    let mut l = loaded(vec![manifest("a", "1", &[])], vec![]);
    l.lockfile = Err(LockfileLoadError::Io("y".to_string()));
    assert_eq!(
        open_workspace(&opts(), l, false).unwrap_err(),
        "sic: failed to load lockfile /l: lockfile read error: y"
    );
}

#[test]
fn color_always_emits_ansi_on_error() {
    let mode = ColorModeArg::parse("always").unwrap();
    let use_color = mode.use_color_stderr(true, false);
    let step = run_install(&opts(), use_color, &workspace(vec![manifest("a", "1", &[])], vec![]), "A");
    if let NextStep::Exit(out) = step {
        assert_ne!(out.code, EXIT_OK, "install without packages should fail");
        assert!(out.stderr.contains("\x1b["), "--color always should emit ANSI on stderr");
    } else {
        panic!("expected exit, got {:?}", step);
    }
}

#[test]
fn color_never_parses_and_status_succeeds() {
    let mode: ColorModeArg = "never".parse().unwrap();
    let use_color = mode.use_color_stdout(false, true);
    assert!(!use_color);
    let out = run_status(&opts(), use_color, Ok(InstalledDb::default()), "", Ok(None));
    assert_eq!(out.code, EXIT_OK);
}

#[test]
fn resolver_failure_exits_non_zero_and_emits_failure_on_stderr() {
    let ws = workspace(vec![manifest("foo", "1.0", &["bar >= 1.0"])], vec![]);
    let step = run_install(&opts(), false, &ws, "foo");
    if let NextStep::Fail(f) = step {
        let stderr = f.to_string();
        assert!(stderr.contains("unsatisfiable") || stderr.contains("bar"), "{}", stderr);
        let out = report_failure(emit_failure(&f, OutputFormat::Human, false));
        assert_eq!(out.code, EXIT_RESOLVER, "expect exit code 1 (resolver failure)");
        assert_eq!(out.code, 1);
        assert_eq!(out.stderr, stderr);
        let unwritten = FailureSerializeError::Json("none".to_string());
        let out = report_failure(Err(unwritten));
        assert_eq!((out.stderr.as_str(), out.code), ("", EXIT_RESOLVER));
    } else {
        panic!("install with unsatisfiable deps should fail: {:?}", step);
    }
}

#[test]
fn resolve_only_with_packages_prints_plan_or_fails() {
    let ws = workspace(
        vec![manifest("foo", "1.0", &["bar >= 1"]), manifest("bar", "2", &[])],
        vec![],
    );
    let step = run_resolve_only(&opts(), false, &ws, Some("foo"));
    if let NextStep::Exit(out) = step {
        assert_eq!(out.code, EXIT_OK);
        assert_eq!(out.stdout, "  bar 2 (Install)\n  foo 1.0 (Install)\n");
    } else {
        panic!("expected plan, got {:?}", step);
    }
    let step = run_resolve_only(&opts(), false, &ws, None);
    assert!(matches!(step, NextStep::Exit(out) if out.stdout.is_empty()));
    let step = run_resolve_only(&opts(), false, &ws, Some("Foo"));
    assert!(matches!(step, NextStep::Exit(out)
        if out.code == EXIT_OTHER && out.stderr == "sic: invalid package name: Foo\n"));
    let step = run_resolve_only(&opts(), false, &ws, Some("nope"));
    assert!(matches!(step, NextStep::Fail(_)));
}

#[test]
fn install_is_shown_or_executed() {
    let mut ws = workspace(vec![manifest("foo", "1", &["curl >= 1"])], vec![]);
    ws.system = SystemPackages::from_map(vec![("curl", "8"), ("foo", "0")]);
    let warning = "sic: warning: sic package foo shadows system package foo; may affect ABI\n";
    match run_install(&dry(), false, &ws, "foo") {
        NextStep::Show { stdout, stderr } => {
            assert_eq!(
                stdout,
                "  foo 1 (Install)\n  satisfied by system: \
                 [(PackageName(\"curl\"), Version(\"8\"))]\n"
            );
            assert_eq!(stderr, warning);
        }
        other => panic!("expected plan, got {:?}", other),
    }
    match run_install(&opts(), false, &ws, "foo") {
        NextStep::Execute { stderr, plan } => {
            assert_eq!(stderr, warning);
            assert_eq!(plan.steps.len(), 1);
            assert_eq!(emit_shadowing_warnings(&plan, &ws.system), warning);
        }
        other => panic!("expected execution, got {:?}", other),
    }
}

#[test]
fn upgrade_flow_install_v1_then_upgrade_to_v2() {
    let packages = || vec![manifest("foo", "1", &[]), manifest("foo", "2", &[])];
    let ws = workspace(packages(), vec![entry("foo", "1")]);
    match run_upgrade(&opts(), false, &ws, Some("foo")) {
        NextStep::Execute { plan, .. } => {
            let out = report_executed(Deed::Upgraded, &plan, None, false, false);
            assert_eq!(out.stdout, "Upgraded foo to 2\n");
            assert_eq!(out.code, EXIT_OK);
        }
        other => panic!("expected execution, got {:?}", other),
    }
    let none = workspace(packages(), vec![]);
    match run_upgrade(&opts(), false, &none, None) {
        NextStep::Show { stdout, .. } => assert_eq!(stdout, "Nothing to upgrade.\n"),
        other => panic!("expected nothing, got {:?}", other),
    }
    match run_upgrade(&dry(), false, &none, None) {
        NextStep::Show { stdout, .. } => assert_eq!(stdout, ""),
        other => panic!("expected plan, got {:?}", other),
    }
    assert!(matches!(run_upgrade(&opts(), false, &ws, Some("F")), NextStep::Exit(_)));
    assert!(matches!(run_upgrade(&opts(), false, &ws, Some("x")), NextStep::Fail(_)));
}

#[test]
fn multiple_packages_b_depends_a_remove_order() {
    let ws = workspace(
        vec![manifest("a", "1", &[]), manifest("b", "1", &["a >= 1"])],
        vec![entry("a", "1"), entry("b", "1")],
    );
    assert!(matches!(run_remove(&opts(), false, &ws, "a", false), NextStep::Fail(_)));
    match run_remove(&dry(), false, &ws, "a", true) {
        NextStep::Show { stdout, stderr } => {
            assert_eq!(stdout, "  a 1 (Remove)\n");
            assert_eq!(stderr, "");
        }
        other => panic!("expected plan, got {:?}", other),
    }
    match run_remove(&opts(), false, &ws, "b", false) {
        NextStep::Execute { plan, .. } => {
            let out = report_executed(Deed::Removed, &plan, None, true, false);
            assert_eq!(out.stdout, "\u{1b}[32mRemoved b 1\u{1b}[39m\n");
            let out = report_executed(Deed::Installed, &plan, None, false, false);
            assert_eq!(out.stdout, "");
        }
        other => panic!("expected execution, got {:?}", other),
    }
    assert!(matches!(run_remove(&opts(), false, &ws, "B", false), NextStep::Exit(_)));
}

#[test]
fn execution_failures() {
    let out = report_executed(Deed::Installed, &Plan::default(), Some("lock: busy"), false, false);
    assert_eq!(out.code, EXIT_EXEC);
    assert_eq!(out.stderr, "sic: lock: busy\n");
    assert_eq!(out.stdout, "");
}

#[test]
fn install_fixture_then_status_then_remove() {
    let ws = workspace(
        vec![manifest("a", "1", &[]), manifest("b", "1", &["a >= 1"])],
        vec![],
    );
    let mut batch =
        Batch::new(ws, Job::Install, vec!["a".to_string(), "b".to_string(), "C".to_string()]);
    match batch.next(&opts(), false) {
        NextStep::Execute { plan, .. } => {
            let out = report_executed(Deed::Installed, &plan, None, false, false);
            assert_eq!(out.stdout, "Installed a 1\n");
        }
        other => panic!("expected execution, got {:?}", other),
    }
    batch.advance(Some(Ok(InstalledDb::from(vec![entry("a", "1")]))));
    match batch.next(&opts(), false) {
        NextStep::Execute { plan, .. } => {
            assert_eq!(plan.steps[0].action, PlanAction::Upgrade);
            assert_eq!(plan.steps[1].action, PlanAction::Install);
        }
        other => panic!("expected execution, got {:?}", other),
    }
    batch.advance(Some(Err(InstalledLoadError::Io("x".to_string()))));
    assert_eq!(batch.ws.installed.list_all().len(), 1);
    assert!(matches!(batch.next(&opts(), false), NextStep::Exit(out) if out.code == EXIT_OTHER));
    batch.advance(None);
    assert!(matches!(batch.next(&opts(), false), NextStep::Exit(out) if out.code == EXIT_OK));
    let mut batch = Batch::new(batch.ws, Job::Remove { force: false }, vec!["a".to_string()]);
    assert!(matches!(batch.next(&opts(), false), NextStep::Execute { .. }));
    batch.advance(Some(Ok(InstalledDb::default())));
    assert!(matches!(batch.next(&opts(), false), NextStep::Exit(out) if out.code == EXIT_OK));
}

#[test]
fn lockfile_mode_of_a_workspace() {
    let mut l = loaded(vec![manifest("a", "1", &[]), manifest("a", "2", &[])], vec![]);
    l.lockfile = Ok(Some(Lockfile { packages: vec![locked("a", "1")] }));
    let ws = open_workspace(&opts(), l, false).unwrap();
    assert!(matches!(run_resolve_only(&opts(), false, &ws, Some("a")), NextStep::Exit(out)
        if out.stdout == "  a 1 (Install)\n"));
    let mut l = loaded(vec![manifest("a", "1", &[]), manifest("a", "2", &[])], vec![]);
    l.lockfile = Ok(Some(Lockfile { packages: vec![locked("a", "1")] }));
    let flexible = GlobalOpts { lockfile_mode: LockfileModeArg::Flexible, ..opts() };
    let ws = open_workspace(&flexible, l, false).unwrap();
    assert!(matches!(run_resolve_only(&flexible, false, &ws, Some("a")), NextStep::Exit(out)
        if out.stdout == "  a 2 (Install)\n"));
}

#[test]
fn search_lists_the_latest_versions() {
    let packages = || {
        Ok(vec![
            manifest("ripgrep", "13", &[]),
            manifest("ripgrep", "14", &[]),
            manifest("fd", "8", &[]),
            manifest("grep-x", "1", &[]),
        ])
    };
    let out = run_search(&opts(), false, "/p", packages(), None);
    assert_eq!(out.stdout, "fd\t8\ngrep-x\t1\nripgrep\t14\n");
    let out = run_search(&opts(), false, "/p", packages(), Some("GREP"));
    assert_eq!(out.stdout, "grep-x\t1\nripgrep\t14\n");
    let out = run_search(&with_output(OutputFormatArg::Json), false, "/p", packages(), Some("fd"));
    let v: serde_json::Value = serde_json::from_str(&out.stdout).unwrap();
    assert_eq!(v["packages"][0]["name"], "fd");
    assert_eq!(v["packages"][0]["version"], "8");
    assert_eq!(
        out.stdout,
        "{\n  \"packages\": [\n    {\n      \"name\": \"fd\",\n      \"version\": \"8\"\n    }\n  ]\n}\n"
    );
    let out = run_search(&with_output(OutputFormatArg::Toml), false, "/p", packages(), Some("fd"));
    let t: toml::Table = out.stdout.parse().unwrap();
    assert_eq!(t["packages"][0]["name"].as_str(), Some("fd"));
    let out = run_search(&opts(), false, "/p", Ok(vec![]), None);
    assert_eq!(out.stderr, "sic: no packages found in /p\n");
    assert_eq!(out.code, EXIT_OTHER);
    let out = run_search(&opts(), false, "/p", Err("denied".to_string()), None);
    assert_eq!(out.stderr, "sic: failed to read packages from /p: denied\n");
}

fn doctor(found: Vec<Found>) -> DoctorResult {
    run_doctor_checks(&found, &Ok(None), &Ok(InstalledDb::default()), &vec![], &vec![])
}

#[test]
fn doctor_after_ensure_layout_all_ok() {
    let out = run_doctor(&opts(), false, doctor(vec![Found::Directory; 10]));
    assert_eq!(out.code, EXIT_OK);
    let stdout = out.stdout;
    assert!(stdout.contains("Layout: OK"), "stdout: {}", stdout);
    assert!(stdout.contains("Lockfile vs installed: OK"), "stdout: {}", stdout);
    assert!(stdout.contains("Symlinks: OK"), "stdout: {}", stdout);
}

#[test]
fn doctor_exits_non_zero_when_layout_broken() {
    let mut found = vec![Found::Directory; 10];
    found[1] = Found::NotDirectory;
    let out = run_doctor(&opts(), false, doctor(found.clone()));
    assert_eq!(out.code, EXIT_OTHER, "doctor should fail when layout is broken");
    assert_eq!(
        out.stdout,
        "Layout: 1 issue(s):\n  not a directory: bin\nLockfile vs installed: OK\nSymlinks: OK\n"
    );
    let out = run_doctor(&with_output(OutputFormatArg::Toml), false, doctor(found.clone()));
    assert_eq!(out.code, EXIT_OTHER);
    let t: toml::Table = out.stdout.parse().unwrap();
    assert_eq!(t["layout"]["ok"].as_bool(), Some(false));
    assert_eq!(t["layout"]["issues"][0].as_str(), Some("not a directory: bin"));
    assert_eq!(t["symlinks"]["ok"].as_bool(), Some(true));
    let out = run_doctor(&with_output(OutputFormatArg::Json), false, doctor(found));
    assert_eq!(out.code, EXIT_OTHER);
    let v: serde_json::Value = serde_json::from_str(&out.stdout).unwrap();
    assert_eq!(v["layout"]["ok"].as_bool(), Some(false));
    assert_eq!(v["layout"]["issues"][0].as_str(), Some("not a directory: bin"));
    assert_eq!(v["lockfile"]["ok"].as_bool(), Some(true));
}

#[test]
fn documents_that_cannot_be_written() {
    let out = print_document(Err("no".to_string()), false, EXIT_OK);
    assert_eq!((out.stderr.as_str(), out.code), ("sic: no\n", EXIT_OTHER));
}

#[test]
fn plans_as_documents() {
    let plan = Plan {
        steps: vec![PlanStep {
            name: PackageName::new("a").unwrap(),
            version: Version::new("1").unwrap(),
            revision: 4294967295,
            source: manifest("a", "1", &[]).source,
            files: vec![],
            action: PlanAction::Upgrade,
        }],
        satisfied_by_system: vec![(
            PackageName::new("b").unwrap(),
            Version::new("2").unwrap(),
        )],
    };
    let v: serde_json::Value =
        serde_json::from_str(&print_plan(&plan, OutputFormat::Json)).unwrap();
    assert_eq!(v["steps"][0]["name"], "a");
    assert_eq!(v["steps"][0]["revision"], 4294967295u32);
    assert_eq!(v["steps"][0]["action"], "Upgrade");
    assert_eq!(v["satisfied_by_system"][0]["version"], "2");
    let t: toml::Table = print_plan(&plan, OutputFormat::Toml).parse().unwrap();
    assert_eq!(t["steps"][0]["revision"].as_integer(), Some(4294967295));
    assert_eq!(t["steps"][0]["action"].as_str(), Some("Upgrade"));
    assert_eq!(t["satisfied_by_system"][0]["name"].as_str(), Some("b"));
}

#[test]
fn arguments() {
    assert_eq!(ColorModeArg::parse("AUTO"), Ok(ColorModeArg::Auto));
    assert_eq!(
        ColorModeArg::parse("x"),
        Err("expected 'auto', 'never', or 'always', got 'x'".to_string())
    );
    assert_eq!("Strict".parse::<LockfileModeArg>(), Ok(LockfileModeArg::Strict));
    assert_eq!(LockfileModeArg::parse("flexible"), Ok(LockfileModeArg::Flexible));
    assert_eq!(
        LockfileModeArg::parse(""),
        Err("expected 'strict' or 'flexible', got ''".to_string())
    );
    assert_eq!("json".parse::<OutputFormatArg>(), Ok(OutputFormatArg::Json));
    assert_eq!(OutputFormatArg::parse("TOML"), Ok(OutputFormatArg::Toml));
    assert_eq!(OutputFormatArg::parse("human"), Ok(OutputFormatArg::Human));
    assert_eq!(
        OutputFormatArg::parse("yaml"),
        Err("expected 'human', 'json', or 'toml', got 'yaml'".to_string())
    );
    assert_eq!(LockfileMode::from(LockfileModeArg::Strict), LockfileMode::Strict);
    assert_eq!(
        LockfileMode::from(LockfileModeArg::Flexible),
        LockfileMode::Flexible(UpgradePolicy::AllowUpgrade)
    );
    assert_eq!(OutputFormat::from(OutputFormatArg::Toml), OutputFormat::Toml);
    assert!(ColorModeArg::Auto.use_color_stderr(false, true));
    assert!(!ColorModeArg::Auto.use_color_stderr(true, true));
    assert!(!ColorModeArg::Auto.use_color_stdout(false, false));
    assert!(ColorModeArg::Always.use_color_stdout(true, false));
}

#[test]
fn directories() {
    let given = GlobalOpts {
        prefix: Some("p".to_string()),
        packages: Some("q".to_string()),
        ..opts()
    };
    assert_eq!(
        resolve_prefix(&given, Some("/r"), true, true),
        (RootBase::Itself, "p".to_string())
    );
    assert_eq!(
        resolve_prefix(&opts(), Some("/r"), true, true),
        (RootBase::Itself, "/r".to_string())
    );
    assert_eq!(resolve_packages_dir(&given, true), PackagesDir::Given("q".to_string()));
    assert_eq!(resolve_packages_dir(&opts(), true), PackagesDir::InPrefix);
    assert_eq!(resolve_packages_dir(&opts(), false), PackagesDir::InCurrentDir);
}

#[test]
fn doctor_output_json_valid() {
    let result = doctor(vec![Found::Directory; 10]);
    let out = run_doctor(&with_output(OutputFormatArg::Json), false, result);
    assert_eq!(out.code, EXIT_OK, "doctor --output json should succeed: {}", out.stderr);
    let v: serde_json::Value =
        serde_json::from_str(&out.stdout).expect("doctor JSON must be valid");
    assert!(v.get("layout").and_then(|l| l.get("ok")).and_then(|o| o.as_bool()) == Some(true));
    assert!(v.get("lockfile").and_then(|l| l.get("ok")).and_then(|o| o.as_bool()) == Some(true));
    assert!(v.get("symlinks").and_then(|s| s.get("ok")).and_then(|o| o.as_bool()) == Some(true));
}

#[test]
fn resolver_failure_output_json_valid_on_stderr() {
    let ws = workspace(vec![manifest("foo", "1.0", &["nonexistent-pkg >= 1.0"])], vec![]);
    let global = with_output(OutputFormatArg::Json);
    let step = run_install(&global, false, &ws, "foo");
    if let NextStep::Fail(f) = step {
        let format = OutputFormat::from(global.output);
        let out = report_failure(emit_failure(&f, format, false));
        assert_ne!(out.code, EXIT_OK);
        let v: serde_json::Value = serde_json::from_str(&out.stderr)
            .expect("--output json must emit valid JSON on stderr");
        assert_eq!(v.get("type").and_then(|t| t.as_str()), Some("unsatisfiable"));
    } else {
        panic!("install with unsatisfiable deps should fail: {:?}", step);
    }
}

#[test]
fn doctor_documents_as_they_are_written() {
    let result = || doctor(vec![Found::Directory; 10]);
    let out = run_doctor(&with_output(OutputFormatArg::Json), false, result());
    let check = "{\n    \"ok\": true,\n    \"issues\": []\n  }";
    let expected = format!(
        "{{\n  \"layout\": {},\n  \"lockfile\": {},\n  \"symlinks\": {}\n}}\n",
        check, check, check
    );
    assert_eq!(out.stdout, expected);
    let out = run_doctor(&with_output(OutputFormatArg::Toml), false, result());
    let check = "issues = []\nok = true\n";
    let expected =
        format!("[layout]\n{}\n[lockfile]\n{}\n[symlinks]\n{}\n", check, check, check);
    assert_eq!(out.stdout, expected);
}

#[test]
fn rows_are_written_by_key() {
    let db = || Ok(InstalledDb::from(vec![entry("a", "1")]));
    let lf = || Ok(Some(Lockfile { packages: vec![locked("a", "1")] }));
    let out = run_status(&with_output(OutputFormatArg::Json), false, db(), "/l", lf());
    assert_eq!(
        out.stdout,
        "[\n  {\n    \"install_path\": \"pkgs/a-1\",\n    \"locked_version\": \"1\",\n    \
         \"lockfile_status\": \"match\",\n    \"name\": \"a\",\n    \"revision\": 1,\n    \
         \"version\": \"1\"\n  }\n]\n"
    );
    let out = run_status(&with_output(OutputFormatArg::Toml), false, db(), "/l", lf());
    assert_eq!(
        out.stdout,
        "[[packages]]\ninstall_path = \"pkgs/a-1\"\nlocked_version = \"1\"\n\
         lockfile_status = \"match\"\nname = \"a\"\nrevision = 1\nversion = \"1\"\n\n"
    );
    let m = manifest("b", "2", &[]);
    let step = PlanStep {
        name: m.name,
        version: m.version,
        revision: 0,
        source: m.source,
        files: vec![],
        action: PlanAction::Install,
    };
    let plan = Plan { steps: vec![step], satisfied_by_system: vec![] };
    assert_eq!(
        print_plan(&plan, OutputFormat::Json),
        "{\n  \"satisfied_by_system\": [],\n  \"steps\": [\n    {\n      \"action\": \"Install\",\n      \
         \"name\": \"b\",\n      \"revision\": 0,\n      \"version\": \"2\"\n    }\n  ]\n}\n"
    );
}
