//! System packages.

use sic::package_name::PackageName;
use sic::system_packages::{best_child_dir, parse_pacman_desc, SystemPackages, DPKG_STATUS_PATH};

fn version_of(s: &SystemPackages, name: &str) -> Option<String> {
    s.get(&PackageName::new(name).unwrap()).map(|v| v.as_str().to_string())
}

#[test]
fn from_map_empty() {
    let s = SystemPackages::from_map(vec![]);
    assert_eq!(s.len(), 0);
}

#[test]
fn from_map_ripgrep() {
    let s = SystemPackages::from_map(vec![("ripgrep", "13.0")]);
    let name = PackageName::new("ripgrep").unwrap();
    assert_eq!(s.get(&name).map(|v| v.as_str().to_string()), Some("13.0".to_string()));
}

#[test]
fn parse_dpkg_status_single_paragraph() {
    let contents = "Package: ripgrep\nVersion: 13.0\nStatus: install ok installed\n";
    let s = SystemPackages::parse_dpkg_status(contents);
    let name = PackageName::new("ripgrep").unwrap();
    assert_eq!(s.get(&name).map(|v| v.as_str().to_string()), Some("13.0".to_string()));
}

#[test]
fn parse_dpkg_status_two_paragraphs() {
    let contents = "Package: a\nVersion: 1.0\nStatus: install ok installed\n\n\
                    Package: b\nVersion: 2.0\nStatus: install ok installed\n";
    let s = SystemPackages::parse_dpkg_status(contents);
    assert_eq!(
        s.get(&PackageName::new("a").unwrap()).map(|v| v.as_str().to_string()),
        Some("1.0".to_string())
    );
    assert_eq!(
        s.get(&PackageName::new("b").unwrap()).map(|v| v.as_str().to_string()),
        Some("2.0".to_string())
    );
}

#[test]
fn parse_dpkg_status_empty_returns_default() {
    let s = SystemPackages::parse_dpkg_status("");
    assert_eq!(s.len(), 0);
    assert_eq!(s, SystemPackages::default());
}

#[test]
fn parse_dpkg_status_invalid_name_skipped() {
    let contents = "Package: libstdc++\nVersion: 1.0\nStatus: install ok installed\n\n\
                    Package: ripgrep\nVersion: 13.0\nStatus: install ok installed\n";
    let s = SystemPackages::parse_dpkg_status(contents);
    assert_eq!(
        s.get(&PackageName::new("ripgrep").unwrap()).map(|v| v.as_str().to_string()),
        Some("13.0".to_string())
    );
    assert_eq!(s.len(), 1);
}

#[test]
fn parse_dpkg_status_only_installed_included() {
    let contents = "Package: old\nVersion: 1.0\nStatus: deinstall ok config-files\n\n\
                    Package: ripgrep\nVersion: 13.0\nStatus: install ok installed\n";
    let s = SystemPackages::parse_dpkg_status(contents);
    assert!(s.get(&PackageName::new("old").unwrap()).is_none());
    assert_eq!(
        s.get(&PackageName::new("ripgrep").unwrap()).map(|v| v.as_str().to_string()),
        Some("13.0".to_string())
    );
    assert_eq!(s.len(), 1);
}

#[test]
fn parse_pacman_desc_sample() {
    let text = "%NAME%\nripgrep\n%VERSION%\n14.1.0-1\n";
    let (n, v) = parse_pacman_desc(text).unwrap();
    assert_eq!(n, "ripgrep");
    assert_eq!(v, "14.1.0-1");
}

#[test]
fn parse_apk_installed_sample() {
    let contents = "C:Q\nP:busybox\nV:1.36.1-r15\n\nC:Q\nP:ripgrep\nV:13.0-r0\n";
    let s = SystemPackages::parse_apk_installed(contents);
    assert_eq!(
        s.get(&PackageName::new("ripgrep").unwrap()).map(|v| v.as_str().to_string()),
        Some("13.0-r0".to_string())
    );
    assert_eq!(version_of(&s, "busybox"), Some("1.36.1-r15".to_string()));
}

#[test]
fn merge_prefers_first_source() {
    let mut a = SystemPackages::from_map(vec![("curl", "8.0")]);
    let b = SystemPackages::from_map(vec![("curl", "7.0")]);
    a.merge_from(b);
    assert_eq!(
        a.get(&PackageName::new("curl").unwrap()).map(|v| v.as_str().to_string()),
        Some("8.0".to_string())
    );
}

#[test]
fn merge_adds_what_is_new() {
    let mut a = SystemPackages::from_map(vec![("b", "1")]);
    a.merge_from(SystemPackages::from_map(vec![("a", "2"), ("b", "3"), ("c", "4")]));
    assert_eq!(a.len(), 3);
    assert_eq!(version_of(&a, "a"), Some("2".to_string()));
    assert_eq!(version_of(&a, "b"), Some("1".to_string()));
    assert_eq!(version_of(&a, "c"), Some("4".to_string()));
    assert!(a.contains(&PackageName::new("c").unwrap()));
    assert!(!a.contains(&PackageName::new("d").unwrap()));
}

#[test]
fn map_skips_invalid_and_keeps_last() {
    let s = SystemPackages::from_map(vec![("a", "1"), ("A", "1"), ("b", " "), ("a", "2")]);
    assert_eq!(s.len(), 1);
    assert_eq!(version_of(&s, "a"), Some("2".to_string()));
}

#[test]
fn dpkg_fields_in_any_order_and_case() {
    let contents = "Status: Install OK Installed\nVersion: 1\nPackage: FD-Find\nVersion: 2\n";
    let s = SystemPackages::load(Some(contents));
    assert_eq!(version_of(&s, "fd-find"), Some("2".to_string()));
    assert_eq!(SystemPackages::load_dpkg_status(None).len(), 0);
    assert_eq!(SystemPackages::load_dpkg_default(Some(contents)), s.clone());
}

#[test]
fn dpkg_lines_may_end_in_carriage_returns() {
    let contents = "Package: a\r\nVersion: 1\r\nStatus: install ok installed\r\n";
    assert_eq!(version_of(&SystemPackages::parse_dpkg_status(contents), "a"), Some("1".into()));
}

#[test]
fn apk_first_package_wins_and_incomplete_is_skipped() {
    let contents = "P:a\nV:1\nC:x\nP:a\nV:2\nC:y\nP:b\nC:z\nV:9\n";
    let s = SystemPackages::parse_apk_installed(contents);
    assert_eq!(s.len(), 1);
    assert_eq!(version_of(&s, "a"), Some("1".to_string()));
}

#[test]
fn pacman_desc_needs_both_fields() {
    assert!(parse_pacman_desc("%NAME%\nfoo\n").is_none());
    assert!(parse_pacman_desc("%NAME%\n").is_none());
    assert_eq!(
        parse_pacman_desc("%VERSION%\n 1 \n\n%NAME%\n Foo \n"),
        Some(("foo".to_string(), "1".to_string()))
    );
    // A keyword that stands as a value is not a keyword.
    assert_eq!(
        parse_pacman_desc("%NAME%\n%VERSION%\n%VERSION%\n3\n"),
        Some(("%version%".to_string(), "3".to_string()))
    );
}

#[test]
fn cellar_takes_the_greatest_version_name() {
    let dirs = vec!["1.9".to_string(), "1.10".to_string(), "1.2".to_string()];
    assert_eq!(best_child_dir(&dirs), Some("1.9"));
    assert_eq!(best_child_dir(&vec![]), None);
    let s = SystemPackages::load_homebrew_cellar(&vec![
        ("Wget".to_string(), dirs),
        ("wget".to_string(), vec!["9".to_string()]),
        ("empty".to_string(), vec![]),
    ]);
    assert_eq!(s.len(), 1);
    assert_eq!(version_of(&s, "wget"), Some("1.9".to_string()));
}

#[test]
fn earlier_sources_win() {
    let s = SystemPackages::load_default(
        Some("Package: a\nVersion: 1\nStatus: install ok installed\n"),
        &vec!["%NAME%\na\n%VERSION%\n2\n".to_string(), "%NAME%\nb\n%VERSION%\n2\n".to_string()],
        Some("P:b\nV:3\nC:\nP:c\nV:3\n"),
        &vec![
            ("c".to_string(), vec!["4".to_string()]),
            ("d".to_string(), vec!["4".to_string()]),
        ],
    );
    assert_eq!(s.len(), 4);
    assert_eq!(version_of(&s, "a"), Some("1".to_string()));
    assert_eq!(version_of(&s, "b"), Some("2".to_string()));
    assert_eq!(version_of(&s, "c"), Some("3".to_string()));
    assert_eq!(version_of(&s, "d"), Some("4".to_string()));
    assert_eq!(SystemPackages::load_default(None, &vec![], None, &vec![]).len(), 0);
    assert_eq!(DPKG_STATUS_PATH, "/var/lib/dpkg/status");
}
