//! The prefix, the doctor and texts.

use sic::doctor::{
    resolve_lockfile_path, run_doctor_checks, run_layout_check, run_lockfile_check,
    run_symlinks_check, DoctorCheckResult, DoctorResult, FileSeen, LockfileChoice, PackageSeen,
};
use sic::package_name::PackageName;
use sic::paths::{is_in, parts_of};
use sic::prefix::{check_layout, layout_dirs, resolve_root, Found, RootBase};
use sic::source::{Source, SourceHash};
use sic::storage::{
    InstalledDb, InstalledEntry, InstalledLoadError, Lockfile, LockfileLoadError, LockfilePackage,
};
use sic::text::{
    decimal_text, find_text, hex_text, is_blank, join, join_path, precedes, replace_char,
    same_text, split_at_first, split_by, split_chars, split_lines, starts_with, strip_prefix,
    strip_suffix, trim,
};
use sic::version::Version;

const DIRS: &[&str] = &[
    "pkgs",
    "bin",
    "var",
    "var/cache",
    "var/transactions",
    "tmp",
    "backups",
];

#[test]
fn layout_has_all_directories() {
    let dirs = layout_dirs();
    for dir in DIRS {
        assert!(dirs.iter().any(|d| d == dir), "expected dir: {:?}", dir);
    }
    assert_eq!(dirs.len(), 10);
    assert!(dirs.iter().any(|d| d == "share/man"));
}

#[test]
fn check_layout_empty_prefix_reports_missing() {
    let (ok, issues) = check_layout(&vec![Found::Missing; 10]);
    assert!(!ok);
    assert!(!issues.is_empty());
    assert!(issues.iter().any(|s| s.starts_with("missing:")));
    assert_eq!(issues[3], "missing: share/man");
}

#[test]
fn check_layout_after_ensure_layout_ok() {
    let (ok, issues) = check_layout(&vec![Found::Directory; 10]);
    assert!(ok, "issues: {:?}", issues);
    assert!(issues.is_empty());
}

#[test]
fn check_layout_file_instead_of_dir() {
    let mut found = vec![Found::Directory; 10];
    found[1] = Found::NotDirectory;
    let (ok, issues) = check_layout(&found);
    assert!(!ok);
    assert!(issues.iter().any(|s| s.contains("not a directory") && s.contains("bin")));
    assert_eq!(run_layout_check(&found), (false, vec!["not a directory: bin".to_string()]));
}

#[test]
fn resolve_root_uses_env_when_set() {
    let (base, root) = resolve_root(Some("/custom/sic"), true, true);
    assert!(root.contains("custom"));
    assert!(root.starts_with("/"));
    assert_eq!(base, RootBase::Itself);
}

#[test]
fn resolve_root_returns_absolute_or_under_home() {
    let (base, root) = resolve_root(None, true, true);
    assert_eq!((base, root.as_str()), (RootBase::Home, ".local/sic"));
    assert!(!root.is_empty());
    let (base, root) = resolve_root(None, false, true);
    assert_eq!((base, root.as_str()), (RootBase::CurrentDir, ".local/sic"));
    let (base, root) = resolve_root(None, false, false);
    assert_eq!((base, root.as_str()), (RootBase::Itself, "./.local/sic"));
    let (base, root) = resolve_root(Some("rel"), true, true);
    assert_eq!((base, root.as_str()), (RootBase::CurrentDir, "rel"));
    let (base, root) = resolve_root(Some("rel"), true, false);
    assert_eq!((base, root.as_str()), (RootBase::Itself, "rel"));
}

fn entry(name: &str, version: &str, files: &[&str]) -> InstalledEntry {
    InstalledEntry {
        name: PackageName::new(name).unwrap(),
        version: Version::new(version).unwrap(),
        revision: 0,
        install_path: format!("pkgs/{}-{}", name, version),
        files: files.iter().map(|f| f.to_string()).collect(),
        file_checksums: vec![],
    }
}

fn locked(name: &str, version: &str) -> LockfilePackage {
    LockfilePackage {
        name: PackageName::new(name).unwrap(),
        version: Version::new(version).unwrap(),
        revision: 0,
        source: Source {
            kind: "tarball".to_string(),
            url: "https://x/a".to_string(),
            hash: SourceHash::parse("sha256:ab").unwrap(),
        },
    }
}

#[test]
fn lockfile_paths() {
    assert_eq!(resolve_lockfile_path(true, true), LockfileChoice::Explicit);
    assert_eq!(resolve_lockfile_path(false, true), LockfileChoice::InPrefix);
    assert_eq!(resolve_lockfile_path(false, false), LockfileChoice::Absent);
}

#[test]
fn lockfile_check_compares_versions_as_texts() {
    let db = Ok(InstalledDb::from(vec![
        entry("a", "1.0", &[]),
        entry("b", "2", &[]),
        entry("c", "3", &[]),
    ]));
    let lf = Ok(Some(Lockfile {
        packages: vec![locked("a", "1.00"), locked("b", "2"), locked("b", "9")],
    }));
    assert_eq!(
        run_lockfile_check(&lf, &db),
        (
            false,
            vec![
                "a: version mismatch (installed 1.0, locked 1.00)".to_string(),
                "c: not in lockfile".to_string()
            ]
        )
    );
    assert_eq!(run_lockfile_check(&Ok(None), &db), (true, vec![]));
    let bad = Err(LockfileLoadError::Parse("x".to_string()));
    assert_eq!(
        run_lockfile_check(&bad, &db),
        (false, vec!["lockfile error: lockfile parse error: x".to_string()])
    );
    let no_db = Err(InstalledLoadError::Io("y".to_string()));
    assert_eq!(
        run_lockfile_check(&lf, &no_db),
        (
            false,
            vec!["failed to load installed.toml: installed.toml read error: y".to_string()]
        )
    );
    assert_eq!(run_lockfile_check(&Ok(None), &no_db), (true, vec![]));
}

fn broken(target: &str) -> FileSeen {
    FileSeen::Link { target: target.to_string(), exists: false }
}

#[test]
fn doctor_broken_symlink_reports_issue() {
    let db = InstalledDb::from(vec![
        entry("a", "1", &["bin/a", "bin/b", "bin/c", "bin/d", "bin/e"]),
        entry("b", "1", &["x"]),
    ]);
    let seen = vec![
        PackageSeen {
            dir_exists: true,
            files: vec![
                FileSeen::Plain,
                FileSeen::Missing,
                FileSeen::UnreadableLink,
                broken("/nonexistent/target"),
                FileSeen::Link { target: "ok".to_string(), exists: true },
            ],
        },
        PackageSeen { dir_exists: false, files: vec![] },
    ];
    let bin = vec![
        ("p".to_string(), broken("gone")),
        ("q".to_string(), FileSeen::UnreadableLink),
        ("r".to_string(), FileSeen::Missing),
        ("s".to_string(), FileSeen::Plain),
    ];
    let (ok, issues) = run_symlinks_check(Some(&db), &seen, &bin);
    assert!(!ok);
    assert_eq!(
        issues,
        vec![
            "missing: pkgs/a-1/bin/b",
            "broken symlink: pkgs/a-1/bin/c (read failed)",
            "broken symlink: pkgs/a-1/bin/d -> /nonexistent/target",
            "package dir missing: pkgs/b-1",
            "broken bin symlink: bin/p -> gone",
            "broken bin symlink: bin/q (read failed)"
        ]
    );
    assert_eq!(run_symlinks_check(None, &seen, &bin), (true, vec![]));
}

#[test]
fn all_checks_together() {
    let result = run_doctor_checks(
        &vec![Found::Directory; 10],
        &Ok(None),
        &Err(InstalledLoadError::Io("x".to_string())),
        &vec![],
        &vec![("p".to_string(), broken("gone"))],
    );
    assert!(result.overall_ok());
    let bad = DoctorResult {
        symlinks: DoctorCheckResult { ok: false, issues: vec!["x".to_string()] },
        ..result
    };
    assert!(!bad.overall_ok());
}

#[test]
fn path_parts() {
    assert_eq!(parts_of("/a//b/./c/"), vec!["/", "a", "b", "c"]);
    assert_eq!(parts_of("./a"), vec![".", "a"]);
    assert_eq!(parts_of(""), Vec::<String>::new());
    assert!(is_in("/a/b", "/a"));
    assert!(is_in("/a", "/a/"));
    assert!(!is_in("/ab", "/a"));
    assert!(!is_in("a/b", "/a"));
    assert!(!is_in("/a", "/a/b"));
}

#[test]
fn texts() {
    assert_eq!(trim("\u{3000} a b\t\n"), "a b");
    assert!(is_blank(" \u{85}") && !is_blank("\u{200b}"));
    assert_eq!(split_chars("a.b..", '.'), vec!["a", "b", "", ""]);
    assert_eq!(split_lines("a\r\nb\n\nc\r"), vec!["a", "b", "", "c\r"]);
    assert!(split_lines("").is_empty());
    assert_eq!(split_by("a\n\n\nb", "\n\n"), vec!["a", "\nb"]);
    assert_eq!(find_text("äab", "ab"), Some(1));
    assert_eq!(find_text("a", "ab"), None);
    assert_eq!(find_text("a", ""), Some(0));
    assert_eq!(split_at_first("a:b:c", ":"), Some(("a".to_string(), "b:c".to_string())));
    assert_eq!(strip_prefix("abc", "ab"), Some("c"));
    assert_eq!(strip_suffix("abc", "bc"), Some("a"));
    assert!(starts_with("abc", "") && !starts_with("ab", "abc"));
    assert_eq!(replace_char("a\\b", '\\', '/'), "a/b");
    assert_eq!(join(&vec!["a".to_string(), "b".to_string()], ", "), "a, b");
    assert_eq!(join(&vec![], ", "), "");
    assert!(precedes("a", "ab") && precedes("Z", "a") && !precedes("b", "ab"));
    assert!(same_text("ä", "ä") && !same_text("a", "ab"));
    assert_eq!(decimal_text(0), "0");
    assert_eq!(decimal_text(18446744073709551615), "18446744073709551615");
    assert_eq!(hex_text(&vec![0, 255, 16]), "00ff10");
    assert_eq!(join_path("/a", "b"), "/a/b");
    assert_eq!(join_path("/", "b"), "/b");
    assert_eq!(join_path("", "b"), "b");
}
