//! The resolver.

use sic::dep_constraint::DepConstraint;
use sic::failure::{FailureKind, ResolverFailure};
use sic::manifest::Manifest;
use sic::package_name::PackageName;
use sic::resolver::{
    plan_to_lockfile, resolve, resolve_remove, AvailablePackages, LockfileMode, Plan, PlanAction,
    Request, UpgradePolicy,
};
use sic::source::{Source, SourceHash};
use sic::storage::{InstalledDb, InstalledEntry, Lockfile, LockfilePackage, Stored};
use sic::system_packages::SystemPackages;
use sic::version::Version;

fn manifest_no_deps(name: &str, version: &str) -> Manifest {
    let pkg_name = PackageName::new(name).unwrap();
    let ver = Version::new(version).unwrap();
    Manifest {
        name: pkg_name.clone(),
        version: ver.clone(),
        revision: 0,
        source: Source {
            kind: "tarball".to_string(),
            url: format!("https://example.com/{}.tar.gz", name),
            hash: SourceHash::parse("sha256:deadbeef").unwrap(),
        },
        depends: vec![],
        depends_any: vec![],
        recommends: vec![],
        conflicts: vec![],
        provides: vec![],
        files: vec![],
        commands: vec![],
    }
}

#[test]
fn single_package_no_deps() {
    let m = manifest_no_deps("foo", "1.0");
    let available = AvailablePackages::from_packages(vec![m.clone()]);
    let installed = InstalledDb::default();
    let plan = resolve(
        Request::Install {
            name: PackageName::new("foo").unwrap(),
        },
        &available,
        &installed,
        None,
        None,
    )
    .unwrap();
    assert_eq!(plan.steps.len(), 1);
    assert_eq!(plan.steps[0].name.as_str(), "foo");
    assert_eq!(plan.steps[0].version.as_str(), "1.0");
    assert_eq!(plan.steps[0].action, PlanAction::Install);
}

#[test]
fn two_packages_a_depends_b() {
    let mb = manifest_no_deps("b", "1.0");
    let mut ma = manifest_no_deps("a", "1.0");
    ma.depends = vec![DepConstraint::parse("b >= 1.0").unwrap()];
    let available = AvailablePackages::from_packages(vec![ma.clone(), mb.clone()]);
    let installed = InstalledDb::default();
    let plan = resolve(
        Request::Install {
            name: PackageName::new("a").unwrap(),
        },
        &available,
        &installed,
        None,
        None,
    )
    .unwrap();
    assert_eq!(plan.steps.len(), 2);
    assert_eq!(plan.steps[0].name.as_str(), "b");
    assert_eq!(plan.steps[1].name.as_str(), "a");
}

#[test]
fn conflict_a_conflicts_b_request_both() {
    let mut ma = manifest_no_deps("a", "1.0");
    ma.conflicts = vec![PackageName::new("b").unwrap()];
    let mb = manifest_no_deps("b", "1.0");
    let mut meta = manifest_no_deps("meta", "1.0");
    meta.depends = vec![
        DepConstraint::parse("a >= 1").unwrap(),
        DepConstraint::parse("b >= 1").unwrap(),
    ];
    let available = AvailablePackages::from_packages(vec![ma, mb, meta]);
    let installed = InstalledDb::default();
    let r = resolve(
        Request::Install {
            name: PackageName::new("meta").unwrap(),
        },
        &available,
        &installed,
        None,
        None,
    );
    assert!(r.is_err());
    if let Err(ref e) = r {
        assert_eq!(e.kind, FailureKind::Conflict);
    } else {
        panic!("expected Conflict failure, got {:?}", r);
    }
}

#[test]
fn depends_any_only_b_available() {
    let mb = manifest_no_deps("b", "1.0");
    let mut ma = manifest_no_deps("a", "1.0");
    ma.depends_any = vec![
        vec![DepConstraint::parse("b >= 1").unwrap()],
        vec![DepConstraint::parse("c >= 1").unwrap()],
    ];
    let available = AvailablePackages::from_packages(vec![ma, mb]);
    let installed = InstalledDb::default();
    let plan = resolve(
        Request::Install {
            name: PackageName::new("a").unwrap(),
        },
        &available,
        &installed,
        None,
        None,
    )
    .unwrap();
    assert_eq!(plan.steps.len(), 2);
    let names: Vec<&str> = plan.steps.iter().map(|s| s.name.as_str()).collect();
    assert!(names.contains(&"b"));
    assert!(names.contains(&"a"));
}

#[test]
fn depends_any_first_alternative_fails_rollback_second_in_plan() {
    // depends_any [[b, d], [e]]: first alternative needs b and d; second needs e only.
    // Only b and e available (no d). First alternative fails partway (b succeeds, d fails);
    // roll back must remove b so second alternative yields plan with e only (not b).
    let mb = manifest_no_deps("b", "1.0");
    let me = manifest_no_deps("e", "1.0");
    let mut ma = manifest_no_deps("a", "1.0");
    ma.depends_any = vec![
        vec![
            DepConstraint::parse("b >= 1").unwrap(),
            DepConstraint::parse("d >= 1").unwrap(),
        ],
        vec![DepConstraint::parse("e >= 1").unwrap()],
    ];
    let available = AvailablePackages::from_packages(vec![ma, mb, me]);
    let installed = InstalledDb::default();
    let plan = resolve(
        Request::Install {
            name: PackageName::new("a").unwrap(),
        },
        &available,
        &installed,
        None,
        None,
    )
    .unwrap();
    let names: Vec<&str> = plan.steps.iter().map(|s| s.name.as_str()).collect();
    assert_eq!(plan.steps.len(), 2);
    assert!(names.contains(&"e"));
    assert!(names.contains(&"a"));
    assert!(!names.contains(&"b"));
}

#[test]
fn provides_a_depends_editor_c_provides_editor() {
    let mut mc = manifest_no_deps("c", "1.0");
    mc.provides = vec!["editor".to_string()];
    let mut ma = manifest_no_deps("a", "1.0");
    ma.depends = vec![DepConstraint::parse("editor >= 0").unwrap()];
    let available = AvailablePackages::from_packages(vec![ma, mc]);
    let installed = InstalledDb::default();
    let plan = resolve(
        Request::Install {
            name: PackageName::new("a").unwrap(),
        },
        &available,
        &installed,
        None,
        None,
    )
    .unwrap();
    let names: Vec<&str> = plan.steps.iter().map(|s| s.name.as_str()).collect();
    assert!(names.contains(&"c"));
    assert!(names.contains(&"a"));
}

#[test]
fn locked_first_b_installed_12_available_12_and_13_install_b_chooses_12() {
    let b12 = manifest_no_deps("b", "12.0");
    let b13 = manifest_no_deps("b", "13.0");
    let available = AvailablePackages::from_packages(vec![b12.clone(), b13]);
    let installed = InstalledDb::from(vec![InstalledEntry {
        name: PackageName::new("b").unwrap(),
        version: Version::new("12.0").unwrap(),
        revision: 0,
        install_path: "pkgs/b-12.0".to_string(),
        files: vec![],
        file_checksums: vec![],
    }]);
    let plan = resolve(
        Request::Install {
            name: PackageName::new("b").unwrap(),
        },
        &available,
        &installed,
        None,
        None,
    )
    .unwrap();
    assert_eq!(plan.steps.len(), 1);
    assert_eq!(plan.steps[0].version.as_str(), "12.0");
}

#[test]
fn unsatisfiable_version_constraint_includes_operator() {
    // When no version satisfies the constraint, failure should report constraint with operator.
    let mut ma = manifest_no_deps("a", "1.0");
    ma.depends = vec![DepConstraint::parse("b >= 2.0").unwrap()];
    let mb = manifest_no_deps("b", "1.0");
    let available = AvailablePackages::from_packages(vec![ma, mb]);
    let installed = InstalledDb::default();
    let r = resolve(
        Request::Install {
            name: PackageName::new("a").unwrap(),
        },
        &available,
        &installed,
        None,
        None,
    );
    assert!(r.is_err());
    let err = r.unwrap_err();
    assert_eq!(err.kind, FailureKind::Unsatisfiable);
    assert_eq!(err.version_constraint.as_deref(), Some("b >= 2.0"));
}

#[test]
fn cycle_a_depends_b_b_depends_a_fails() {
    let mut ma = manifest_no_deps("a", "1.0");
    ma.depends = vec![DepConstraint::parse("b >= 1").unwrap()];
    let mut mb = manifest_no_deps("b", "1.0");
    mb.depends = vec![DepConstraint::parse("a >= 1").unwrap()];
    let available = AvailablePackages::from_packages(vec![ma, mb]);
    let installed = InstalledDb::default();
    let r = resolve(
        Request::Install {
            name: PackageName::new("a").unwrap(),
        },
        &available,
        &installed,
        None,
        None,
    );
    assert!(r.is_err());
    if let Err(ref e) = r {
        assert_eq!(e.kind, FailureKind::Cycle);
    } else {
        panic!("expected Cycle failure");
    }
}

// --- Lockfile integration tests ---

#[test]
fn resolver_with_lockfile_strict_chooses_locked_version() {
    let b12 = manifest_no_deps("b", "12.0");
    let b13 = manifest_no_deps("b", "13.0");
    let available = AvailablePackages::from_packages(vec![b12.clone(), b13]);
    let installed = InstalledDb::default();
    let lockfile = Lockfile {
        packages: vec![LockfilePackage {
            name: PackageName::new("b").unwrap(),
            version: Version::new("12.0").unwrap(),
            revision: 0,
            source: b12.source.clone(),
        }],
    };
    let plan = resolve(
        Request::Install {
            name: PackageName::new("b").unwrap(),
        },
        &available,
        &installed,
        Some((&lockfile, LockfileMode::Strict)),
        None,
    )
    .unwrap();
    assert_eq!(plan.steps.len(), 1);
    assert_eq!(plan.steps[0].name.as_str(), "b");
    assert_eq!(plan.steps[0].version.as_str(), "12.0");
}

#[test]
fn strict_version_not_in_lockfile_fails() {
    // a depends on b >= 13; lockfile has only b 12.0; strict mode -> failure (b 13.0 not in lockfile).
    let b12 = manifest_no_deps("b", "12.0");
    let b13 = manifest_no_deps("b", "13.0");
    let mut ma = manifest_no_deps("a", "1.0");
    ma.depends = vec![DepConstraint::parse("b >= 13").unwrap()];
    let available =
        AvailablePackages::from_packages(vec![ma, b12.clone(), b13]);
    let installed = InstalledDb::default();
    let lockfile = Lockfile {
        packages: vec![LockfilePackage {
            name: PackageName::new("b").unwrap(),
            version: Version::new("12.0").unwrap(),
            revision: 0,
            source: b12.source.clone(),
        }],
    };
    let r = resolve(
        Request::Install {
            name: PackageName::new("a").unwrap(),
        },
        &available,
        &installed,
        Some((&lockfile, LockfileMode::Strict)),
        None,
    );
    assert!(r.is_err());
    let err = r.unwrap_err();
    assert!(err.kind == FailureKind::Unsatisfiable
        || err.kind == FailureKind::NotInLockfile);
    assert!(err.package.as_deref() == Some("b") || err.package.as_deref() == Some("a"));
}

#[test]
fn strict_new_package_not_in_lockfile_fails() {
    let foo = manifest_no_deps("foo", "1.0");
    let available = AvailablePackages::from_packages(vec![foo]);
    let installed = InstalledDb::default();
    let lockfile = Lockfile {
        packages: vec![],
    };
    let r = resolve(
        Request::Install {
            name: PackageName::new("foo").unwrap(),
        },
        &available,
        &installed,
        Some((&lockfile, LockfileMode::Strict)),
        None,
    );
    assert!(r.is_err());
    let err = r.unwrap_err();
    assert_eq!(err.kind, FailureKind::NotInLockfile);
    assert_eq!(err.package.as_deref(), Some("foo"));
}

#[test]
fn flexible_allows_upgrade_plan_has_new_version() {
    let b12 = manifest_no_deps("b", "12.0");
    let b13 = manifest_no_deps("b", "13.0");
    let available = AvailablePackages::from_packages(vec![b12.clone(), b13.clone()]);
    let installed = InstalledDb::default();
    let lockfile = Lockfile {
        packages: vec![LockfilePackage {
            name: PackageName::new("b").unwrap(),
            version: Version::new("12.0").unwrap(),
            revision: 0,
            source: b12.source.clone(),
        }],
    };
    let plan = resolve(
        Request::Upgrade {
            name: PackageName::new("b").unwrap(),
        },
        &available,
        &installed,
        Some((&lockfile, LockfileMode::Flexible(UpgradePolicy::AllowUpgrade))),
        None,
    )
    .unwrap();
    assert_eq!(plan.steps.len(), 1);
    assert_eq!(plan.steps[0].name.as_str(), "b");
    assert_eq!(plan.steps[0].version.as_str(), "13.0");
}

#[test]
fn write_lockfile_roundtrip_same_plan() {
    let foo = manifest_no_deps("foo", "1.0");
    let available = AvailablePackages::from_packages(vec![foo.clone()]);
    let installed = InstalledDb::default();
    let plan1 = resolve(
        Request::Install {
            name: PackageName::new("foo").unwrap(),
        },
        &available,
        &installed,
        None,
        None,
    )
    .unwrap();
    let lockfile = plan_to_lockfile(&plan1);
    let loaded = Lockfile::load(Stored::Document(lockfile)).unwrap().unwrap();
    let plan2 = resolve(
        Request::Install {
            name: PackageName::new("foo").unwrap(),
        },
        &available,
        &installed,
        Some((&loaded, LockfileMode::Strict)),
        None,
    )
    .unwrap();
    assert_eq!(plan1.steps.len(), plan2.steps.len());
    assert_eq!(plan1.steps[0].name.as_str(), plan2.steps[0].name.as_str());
    assert_eq!(plan1.steps[0].version.as_str(), plan2.steps[0].version.as_str());
}

// --- Debian / system packages tests ---

#[test]
fn implicit_dep_satisfied_by_system_plan_has_only_requested() {
    // System has ripgrep 13.0; sic has helix depending on ripgrep >= 13; no sic ripgrep.
    let mut helix = manifest_no_deps("helix", "24.03");
    helix.depends = vec![DepConstraint::parse("ripgrep >= 13").unwrap()];
    let available = AvailablePackages::from_packages(vec![helix]);
    let installed = InstalledDb::default();
    let system = SystemPackages::from_map(vec![("ripgrep", "13.0")]);
    let plan = resolve(
        Request::Install {
            name: PackageName::new("helix").unwrap(),
        },
        &available,
        &installed,
        None,
        Some(&system),
    )
    .unwrap();
    assert_eq!(plan.steps.len(), 1);
    assert_eq!(plan.steps[0].name.as_str(), "helix");
    let ripgrep = PackageName::new("ripgrep").unwrap();
    assert!(
        plan.satisfied_by_system
            .iter()
            .any(|(n, v)| n == &ripgrep && v.as_str() == "13.0"),
        "ripgrep 13.0 should be in satisfied_by_system"
    );
}

#[test]
fn explicit_request_uses_sic_not_system() {
    // User requests sic install ripgrep. Sic has ripgrep 14.0; system has ripgrep 13.0.
    let ripgrep_sic = manifest_no_deps("ripgrep", "14.0");
    let available = AvailablePackages::from_packages(vec![ripgrep_sic]);
    let installed = InstalledDb::default();
    let system = SystemPackages::from_map(vec![("ripgrep", "13.0")]);
    let plan = resolve(
        Request::Install {
            name: PackageName::new("ripgrep").unwrap(),
        },
        &available,
        &installed,
        None,
        Some(&system),
    )
    .unwrap();
    assert_eq!(plan.steps.len(), 1);
    assert_eq!(plan.steps[0].name.as_str(), "ripgrep");
    assert_eq!(plan.steps[0].version.as_str(), "14.0");
    let ripgrep = PackageName::new("ripgrep").unwrap();
    assert!(
        !plan.satisfied_by_system.iter().any(|(n, _)| n == &ripgrep),
        "ripgrep should not be in satisfied_by_system when explicitly requested"
    );
}

#[test]
fn system_none_unchanged_behavior() {
    // resolve(..., system: None) behaves as before: all deps from sic.
    let mb = manifest_no_deps("b", "1.0");
    let mut ma = manifest_no_deps("a", "1.0");
    ma.depends = vec![DepConstraint::parse("b >= 1.0").unwrap()];
    let available = AvailablePackages::from_packages(vec![ma.clone(), mb]);
    let installed = InstalledDb::default();
    let plan = resolve(
        Request::Install {
            name: PackageName::new("a").unwrap(),
        },
        &available,
        &installed,
        None,
        None,
    )
    .unwrap();
    assert_eq!(plan.steps.len(), 2);
    assert!(plan.satisfied_by_system.is_empty());
}

#[test]
fn depends_any_one_alternative_satisfied_by_system() {
    // a depends_any [[b], [c]]. System has b 1.0; sic has c 1.0. First alternative (b) satisfied by system -> no b in steps.
    let mc = manifest_no_deps("c", "1.0");
    let mut ma = manifest_no_deps("a", "1.0");
    ma.depends_any = vec![
        vec![DepConstraint::parse("b >= 1").unwrap()],
        vec![DepConstraint::parse("c >= 1").unwrap()],
    ];
    let available = AvailablePackages::from_packages(vec![ma, mc]);
    let installed = InstalledDb::default();
    let system = SystemPackages::from_map(vec![("b", "1.0")]);
    let plan = resolve(
        Request::Install {
            name: PackageName::new("a").unwrap(),
        },
        &available,
        &installed,
        None,
        Some(&system),
    )
    .unwrap();
    assert_eq!(plan.steps.len(), 1);
    assert_eq!(plan.steps[0].name.as_str(), "a");
    let b = PackageName::new("b").unwrap();
    assert!(
        plan.satisfied_by_system.iter().any(|(n, v)| n == &b && v.as_str() == "1.0"),
        "b 1.0 should be in satisfied_by_system"
    );
}

#[test]
fn depends_any_rollback_satisfied_system_when_alternative_fails() {
    // a depends_any [[b, c], [d]]. System has b 1.0; sic has d 1.0 only (no c).
    // First alternative: b satisfied by system, c fails -> roll back. Second: d from sic.
    // satisfied_by_system must not contain b (we rolled back that alternative).
    let md = manifest_no_deps("d", "1.0");
    let mut ma = manifest_no_deps("a", "1.0");
    ma.depends_any = vec![
        vec![
            DepConstraint::parse("b >= 1").unwrap(),
            DepConstraint::parse("c >= 1").unwrap(),
        ],
        vec![DepConstraint::parse("d >= 1").unwrap()],
    ];
    let available = AvailablePackages::from_packages(vec![ma, md]);
    let installed = InstalledDb::default();
    let system = SystemPackages::from_map(vec![("b", "1.0")]);
    let plan = resolve(
        Request::Install {
            name: PackageName::new("a").unwrap(),
        },
        &available,
        &installed,
        None,
        Some(&system),
    )
    .unwrap();
    assert_eq!(plan.steps.len(), 2);
    let names: Vec<&str> = plan.steps.iter().map(|s| s.name.as_str()).collect();
    assert!(names.contains(&"d"));
    assert!(names.contains(&"a"));
    let b = PackageName::new("b").unwrap();
    assert!(
        !plan.satisfied_by_system.iter().any(|(n, _)| n == &b),
        "b must not be in satisfied_by_system after rollback of first alternative"
    );
}

#[test]
fn depends_any_rollback_clears_visiting_so_third_alternative_can_use_same_dep() {
    // a depends_any [[b, c], [d, e], [d]]. First: b from system, c missing -> roll back.
    // Second: d from sic, e missing -> roll back (must clear d from visiting).
    // Third: d from sic -> succeed. Without clearing visiting, resolve_one(d) in third would see d in visiting and return cycle.
    let md = manifest_no_deps("d", "1.0");
    let mut ma = manifest_no_deps("a", "1.0");
    ma.depends_any = vec![
        vec![
            DepConstraint::parse("b >= 1").unwrap(),
            DepConstraint::parse("c >= 1").unwrap(),
        ],
        vec![
            DepConstraint::parse("d >= 1").unwrap(),
            DepConstraint::parse("e >= 1").unwrap(),
        ],
        vec![DepConstraint::parse("d >= 1").unwrap()],
    ];
    let available = AvailablePackages::from_packages(vec![ma, md]);
    let installed = InstalledDb::default();
    let system = SystemPackages::from_map(vec![("b", "1.0")]);
    let plan = resolve(
        Request::Install {
            name: PackageName::new("a").unwrap(),
        },
        &available,
        &installed,
        None,
        Some(&system),
    )
    .unwrap();
    assert_eq!(plan.steps.len(), 2);
    let names: Vec<&str> = plan.steps.iter().map(|s| s.name.as_str()).collect();
    assert!(names.contains(&"d"));
    assert!(names.contains(&"a"));
}

// --- Upgrade and remove tests ---

#[test]
fn remove_when_not_installed_fails() {
    let foo = manifest_no_deps("foo", "1.0");
    let available = AvailablePackages::from_packages(vec![foo]);
    let installed = InstalledDb::default();
    let r = resolve_remove(
        PackageName::new("foo").unwrap(),
        false,
        &available,
        &installed,
    );
    assert!(r.is_err());
    let err = r.unwrap_err();
    assert_eq!(err.kind, FailureKind::Other);
}

#[test]
fn remove_when_dependents_exist_fails_unless_force() {
    let mb = manifest_no_deps("b", "1.0");
    let mut ma = manifest_no_deps("a", "1.0");
    ma.depends = vec![DepConstraint::parse("b >= 1").unwrap()];
    let available = AvailablePackages::from_packages(vec![ma, mb]);
    let installed = InstalledDb::from(vec![
        InstalledEntry {
            name: PackageName::new("b").unwrap(),
            version: Version::new("1.0").unwrap(),
            revision: 0,
            install_path: "pkgs/b-1.0".to_string(),
            files: vec![],
            file_checksums: vec![],
        },
        InstalledEntry {
            name: PackageName::new("a").unwrap(),
            version: Version::new("1.0").unwrap(),
            revision: 0,
            install_path: "pkgs/a-1.0".to_string(),
            files: vec![],
            file_checksums: vec![],
        },
    ]);
    let r = resolve_remove(
        PackageName::new("b").unwrap(),
        false,
        &available,
        &installed,
    );
    assert!(r.is_err());
    let err = r.unwrap_err();
    assert_eq!(err.kind, FailureKind::HasDependents);
    assert_eq!(err.package.as_deref(), Some("b"));
    assert!(err.conflicting_packages.as_ref().map(|v| v.contains(&"a".to_string())).unwrap_or(false));

    let plan = resolve_remove(
        PackageName::new("b").unwrap(),
        true, // force
        &available,
        &installed,
    )
    .unwrap();
    assert_eq!(plan.steps.len(), 1);
    assert_eq!(plan.steps[0].name.as_str(), "b");
    assert_eq!(plan.steps[0].action, PlanAction::Remove);
}

#[test]
fn remove_when_no_dependents_succeeds() {
    let foo = manifest_no_deps("foo", "1.0");
    let available = AvailablePackages::from_packages(vec![foo.clone()]);
    let installed = InstalledDb::from(vec![InstalledEntry {
        name: PackageName::new("foo").unwrap(),
        version: Version::new("1.0").unwrap(),
        revision: 0,
        install_path: "pkgs/foo-1.0".to_string(),
        files: vec![],
        file_checksums: vec![],
    }]);
    let plan = resolve_remove(
        PackageName::new("foo").unwrap(),
        false,
        &available,
        &installed,
    )
    .unwrap();
    assert_eq!(plan.steps.len(), 1);
    assert_eq!(plan.steps[0].name.as_str(), "foo");
    assert_eq!(plan.steps[0].version.as_str(), "1.0");
    assert_eq!(plan.steps[0].action, PlanAction::Remove);
}

#[test]
fn upgrade_all_empty_installed_returns_empty_plan() {
    let foo = manifest_no_deps("foo", "1.0");
    let available = AvailablePackages::from_packages(vec![foo]);
    let installed = InstalledDb::default();
    let plan = resolve(
        Request::UpgradeAll,
        &available,
        &installed,
        None,
        None,
    )
    .unwrap();
    assert!(plan.steps.is_empty());
}

#[test]
fn upgrade_all_one_installed_returns_upgrade_steps() {
    let foo1 = manifest_no_deps("foo", "1.0");
    let foo2 = manifest_no_deps("foo", "2.0");
    let available = AvailablePackages::from_packages(vec![foo1, foo2]);
    let installed = InstalledDb::from(vec![InstalledEntry {
        name: PackageName::new("foo").unwrap(),
        version: Version::new("1.0").unwrap(),
        revision: 0,
        install_path: "pkgs/foo-1.0".to_string(),
        files: vec![],
        file_checksums: vec![],
    }]);
    let plan = resolve(
        Request::UpgradeAll,
        &available,
        &installed,
        None,
        None,
    )
    .unwrap();
    assert_eq!(plan.steps.len(), 1);
    assert_eq!(plan.steps[0].name.as_str(), "foo");
    assert_eq!(plan.steps[0].version.as_str(), "2.0");
    assert_eq!(plan.steps[0].action, PlanAction::Upgrade);
}

fn name(s: &str) -> PackageName {
    PackageName::new(s).unwrap()
}

fn deps(list: &[&str]) -> Vec<DepConstraint> {
    list.iter().map(|s| DepConstraint::parse(s).unwrap()).collect()
}

fn entry(n: &str, v: &str) -> InstalledEntry {
    InstalledEntry {
        name: name(n),
        version: Version::new(v).unwrap(),
        revision: 0,
        install_path: format!("pkgs/{}-{}", n, v),
        files: vec![],
        file_checksums: vec![],
    }
}

fn locked(n: &str, v: &str, revision: u32) -> LockfilePackage {
    let m = manifest_no_deps(n, v);
    LockfilePackage { name: m.name, version: m.version, revision, source: m.source }
}

fn install(n: &str, packages: Vec<Manifest>) -> Result<Plan, ResolverFailure> {
    let available = AvailablePackages::from_packages(packages);
    let installed = InstalledDb::default();
    resolve(Request::Install { name: name(n) }, &available, &installed, None, None)
}

fn step_names(plan: &Plan) -> Vec<String> {
    plan.steps
        .iter()
        .map(|s| format!("{}-{}", s.name.as_str(), s.version.as_str()))
        .collect()
}

#[test]
fn duplicates_are_coalesced_and_the_last_wins() {
    let mut first = manifest_no_deps("a", "1.0");
    first.revision = 1;
    let mut second = manifest_no_deps("a", "1.0");
    second.revision = 2;
    let same_rank = manifest_no_deps("a", "1.00");
    let older = manifest_no_deps("a", "0.9");
    let available =
        AvailablePackages::from_packages(vec![first, same_rank, older, second.clone()]);
    let versions = available.get_versions(&name("a")).unwrap();
    let texts: Vec<&str> = versions.iter().map(|m| m.version.as_str()).collect();
    assert_eq!(texts, vec!["0.9", "1.00", "1.0"]);
    assert_eq!(available.get_latest(&name("a")), Some(&second));
}

#[test]
fn index_is_sorted_by_name_and_version() {
    let available = AvailablePackages::from_packages(vec![
        manifest_no_deps("b", "2"),
        manifest_no_deps("a", "1"),
        manifest_no_deps("b", "10"),
        manifest_no_deps("b", "1"),
    ]);
    let names: Vec<&str> = available.all_names().iter().map(|n| n.as_str()).collect();
    assert_eq!(names, vec!["a", "b"]);
    let versions = available.get_versions(&name("b")).unwrap();
    let texts: Vec<&str> = versions.iter().map(|m| m.version.as_str()).collect();
    assert_eq!(texts, vec!["1", "2", "10"]);
    assert!(available.has_package(&name("a")) && !available.has_package(&name("c")));
    assert!(available.get_versions(&name("c")).is_none());
    assert!(available.get_latest(&name("c")).is_none());
    assert_eq!(available.clone().all_names().len(), 2);
    assert!(AvailablePackages::default().all_names().is_empty());
}

#[test]
fn providers_stand_in_the_order_of_the_index() {
    let mut c = manifest_no_deps("c", "1");
    c.provides = vec!["x".to_string(), "editor".to_string()];
    let mut a2 = manifest_no_deps("a", "2");
    a2.provides = vec!["editor".to_string()];
    let mut a1 = manifest_no_deps("a", "1");
    a1.provides = vec!["editor".to_string()];
    let available = AvailablePackages::from_packages(vec![c, a2, a1, manifest_no_deps("b", "1")]);
    let found: Vec<String> = available
        .providers_of("editor")
        .iter()
        .map(|m| format!("{}-{}", m.name.as_str(), m.version.as_str()))
        .collect();
    assert_eq!(found, vec!["a-1", "a-2", "c-1"]);
}

#[test]
fn last_provider_that_fits_is_chosen() {
    let mut a = manifest_no_deps("a", "3");
    a.provides = vec!["editor".to_string()];
    let mut b = manifest_no_deps("b", "1");
    b.provides = vec!["editor".to_string()];
    let mut top = manifest_no_deps("top", "1");
    top.depends = deps(&["editor >= 2"]);
    let plan = install("top", vec![a.clone(), b.clone(), top.clone()]).unwrap();
    assert_eq!(step_names(&plan), vec!["a-3", "top-1"]);
    top.depends = deps(&["editor >= 1"]);
    let plan = install("top", vec![a.clone(), b.clone(), top.clone()]).unwrap();
    assert_eq!(step_names(&plan), vec!["b-1", "top-1"]);
    top.depends = deps(&["editor >= 9"]);
    let e = install("top", vec![a, b, top]).unwrap_err();
    assert_eq!(e.kind, FailureKind::Unsatisfiable);
    assert_eq!(e.package.as_deref(), Some("editor"));
    assert_eq!(e.dependencies.unwrap().to_vec(), vec!["package not found".to_string()]);
}

#[test]
fn dependencies_come_before_dependents() {
    let mut a = manifest_no_deps("a", "1");
    a.depends = deps(&["c >= 1", "b >= 1"]);
    let mut b = manifest_no_deps("b", "1");
    b.depends = deps(&["d >= 1"]);
    let mut c = manifest_no_deps("c", "1");
    c.depends = deps(&["d >= 1"]);
    let d = manifest_no_deps("d", "1");
    let plan = install("a", vec![a, b, c, d]).unwrap();
    assert_eq!(step_names(&plan), vec!["d-1", "c-1", "b-1", "a-1"]);
}

#[test]
fn a_dependency_goes_before_an_alternative() {
    let mut u = manifest_no_deps("u", "1");
    u.depends = deps(&["t >= 1"]);
    let mut t = manifest_no_deps("t", "1");
    t.depends_any = vec![deps(&["u >= 1"])];
    let plan = install("u", vec![u, t]).unwrap();
    assert_eq!(step_names(&plan), vec!["t-1", "u-1"]);
}

#[test]
fn a_selected_version_must_meet_later_constraints() {
    let mut a = manifest_no_deps("a", "1");
    a.depends = deps(&["b >= 1", "c >= 1"]);
    let b = manifest_no_deps("b", "2");
    let mut c = manifest_no_deps("c", "1");
    c.depends = deps(&["b < 2"]);
    let e = install("a", vec![a, b, c]).unwrap_err();
    assert_eq!(e.kind, FailureKind::Unsatisfiable);
    assert_eq!(e.package.as_deref(), Some("b"));
    assert_eq!(e.version_constraint.as_deref(), Some("b < 2"));
    assert_eq!(e.available_versions.unwrap()[0].as_str(), "2");
}

#[test]
fn no_alternative_left() {
    let mut a = manifest_no_deps("a", "1");
    a.depends_any = vec![deps(&["x >= 1"]), deps(&["y >= 1"])];
    let e = install("a", vec![a]).unwrap_err();
    assert_eq!(e.kind, FailureKind::Unsatisfiable);
    assert_eq!(e.package.as_deref(), Some("a"));
    assert_eq!(
        e.dependencies.unwrap().to_vec(),
        vec!["no alternative in depends_any could be satisfied".to_string()]
    );
}

#[test]
fn a_package_may_conflict_with_itself() {
    let mut a = manifest_no_deps("a", "1");
    a.conflicts = vec![name("z"), name("a")];
    let e = install("a", vec![a]).unwrap_err();
    assert_eq!(e.kind, FailureKind::Conflict);
    assert_eq!(e.conflicting_packages.unwrap().to_vec(), vec!["a".to_string()]);
}

#[test]
fn strict_lockfile_compares_rank_and_revision() {
    let mut a = manifest_no_deps("a", "1.00");
    a.revision = 3;
    let available = AvailablePackages::from_packages(vec![a]);
    let installed = InstalledDb::default();
    let request = || Request::Install { name: name("a") };
    let good = Lockfile { packages: vec![locked("a", "1.0", 3)] };
    let plan =
        resolve(request(), &available, &installed, Some((&good, LockfileMode::Strict)), None);
    assert_eq!(step_names(&plan.unwrap()), vec!["a-1.00"]);
    let bad = Lockfile { packages: vec![locked("a", "1.0", 2)] };
    let e = resolve(request(), &available, &installed, Some((&bad, LockfileMode::Strict)), None)
        .unwrap_err();
    assert_eq!(e.kind, FailureKind::Unsatisfiable);
    assert_eq!(e.available_versions.unwrap()[0].as_str(), "1.0");
    assert_eq!(
        e.dependencies.unwrap()[0],
        "no locked (version, revision) satisfies constraint (strict mode)"
    );
}

#[test]
fn strict_lockfile_and_providers() {
    let mut p = manifest_no_deps("p", "1");
    p.provides = vec!["editor".to_string()];
    let available = AvailablePackages::from_packages(vec![p]);
    let installed = InstalledDb::default();
    let request = || Request::Install { name: name("editor") };
    let good = Lockfile { packages: vec![locked("p", "1", 0)] };
    let plan =
        resolve(request(), &available, &installed, Some((&good, LockfileMode::Strict)), None);
    assert_eq!(step_names(&plan.unwrap()), vec!["p-1"]);
    let none = Lockfile { packages: vec![] };
    let e = resolve(request(), &available, &installed, Some((&none, LockfileMode::Strict)), None)
        .unwrap_err();
    assert_eq!(e.kind, FailureKind::NotInLockfile);
    assert_eq!(e.package.as_deref(), Some("editor"));
}

#[test]
fn flexible_lockfile_forbids_downgrades() {
    let mode = LockfileMode::Flexible(UpgradePolicy::AllowUpgrade);
    let available = AvailablePackages::from_packages(vec![manifest_no_deps("a", "1")]);
    let installed = InstalledDb::default();
    let request = || Request::Install { name: name("a") };
    let newer = Lockfile { packages: vec![locked("a", "1", 0), locked("a", "2", 0)] };
    let e = resolve(request(), &available, &installed, Some((&newer, mode)), None).unwrap_err();
    assert_eq!(
        e.dependencies.unwrap()[0],
        "no version >= locked satisfies constraint (flexible mode)"
    );
    let other = Lockfile { packages: vec![locked("b", "2", 0)] };
    assert!(resolve(request(), &available, &installed, Some((&other, mode)), None).is_ok());
    let mut p = manifest_no_deps("p", "1");
    p.provides = vec!["editor".to_string()];
    let available = AvailablePackages::from_packages(vec![p]);
    let request = Request::Install { name: name("editor") };
    let newer = Lockfile { packages: vec![locked("p", "2", 0)] };
    let e = resolve(request, &available, &installed, Some((&newer, mode)), None).unwrap_err();
    assert_eq!(e.dependencies.unwrap()[0], "package not found");
}

#[test]
fn system_package_that_fits_every_constraint_is_never_selected() {
    let mut a = manifest_no_deps("a", "1");
    a.depends = deps(&["curl >= 1", "b >= 1"]);
    let mut b = manifest_no_deps("b", "1");
    b.depends = deps(&["curl < 9"]);
    let available =
        AvailablePackages::from_packages(vec![a, b, manifest_no_deps("curl", "8.5")]);
    let installed = InstalledDb::default();
    let system = SystemPackages::from_map(vec![("curl", "8.0")]);
    let request = Request::Install { name: name("a") };
    let plan = resolve(request, &available, &installed, None, Some(&system)).unwrap();
    assert_eq!(step_names(&plan), vec!["b-1", "a-1"]);
    assert_eq!(plan.satisfied_by_system.len(), 1);
    assert_eq!(plan.satisfied_by_system[0].1.as_str(), "8.0");
}

#[test]
fn system_package_that_fits_one_constraint_of_two_is_left_out() {
    let mut a = manifest_no_deps("a", "1");
    a.depends = deps(&["curl >= 1", "curl >= 8.5"]);
    let available = AvailablePackages::from_packages(vec![a, manifest_no_deps("curl", "8.5")]);
    let installed = InstalledDb::default();
    let system = SystemPackages::from_map(vec![("curl", "8.0")]);
    let request = Request::Install { name: name("a") };
    let plan = resolve(request, &available, &installed, None, Some(&system)).unwrap();
    assert_eq!(step_names(&plan), vec!["curl-8.5", "a-1"]);
    assert!(plan.satisfied_by_system.is_empty());
}

#[test]
fn upgrade_prefers_the_latest_and_says_so() {
    let mut top = manifest_no_deps("top", "2");
    top.depends = deps(&["lib >= 1"]);
    let available = AvailablePackages::from_packages(vec![
        manifest_no_deps("top", "1"),
        top,
        manifest_no_deps("lib", "1"),
        manifest_no_deps("lib", "2"),
    ]);
    let installed = InstalledDb::from(vec![entry("top", "1")]);
    let request = Request::Upgrade { name: name("top") };
    let plan = resolve(request, &available, &installed, None, None).unwrap();
    assert_eq!(step_names(&plan), vec!["lib-2", "top-2"]);
    assert_eq!(plan.steps[0].action, PlanAction::Install);
    assert_eq!(plan.steps[1].action, PlanAction::Upgrade);
}

#[test]
fn dependents_count_by_their_installed_version() {
    let mut a1 = manifest_no_deps("a", "1");
    a1.depends_any = vec![deps(&["x >= 1"]), deps(&["b >= 1"])];
    let a2 = manifest_no_deps("a", "2");
    let available =
        AvailablePackages::from_packages(vec![a1, a2, manifest_no_deps("b", "1")]);
    let with_a1 = InstalledDb::from(vec![entry("a", "1"), entry("b", "1")]);
    let e = resolve_remove(name("b"), false, &available, &with_a1).unwrap_err();
    assert_eq!(e.conflicting_packages.unwrap().to_vec(), vec!["a".to_string()]);
    let with_a2 = InstalledDb::from(vec![entry("a", "2"), entry("b", "1")]);
    let plan = resolve_remove(name("b"), false, &available, &with_a2).unwrap();
    assert_eq!(plan.steps.len(), 1);
    assert_eq!(plan.steps[0].source.kind, "none");
    assert_eq!(plan.steps[0].source.url, "");
    assert_eq!(
        plan.steps[0].source.hash.to_string(),
        "sha256:e3b0c44298fc1c149afbf4c8996fb92427ae41e4649b934ca495991b7852b855"
    );
}

#[test]
fn removal_through_a_request() {
    let available = AvailablePackages::default();
    let installed = InstalledDb::from(vec![entry("b", "1")]);
    let request = Request::Remove { name: name("b"), force: false };
    let plan = resolve(request, &available, &installed, None, None).unwrap();
    assert_eq!(plan.steps[0].action, PlanAction::Remove);
    let request = Request::Remove { name: name("c"), force: true };
    let e = resolve(request, &available, &installed, None, None).unwrap_err();
    assert_eq!(e.dependencies.unwrap()[0], "package not installed");
}

#[test]
fn lockfile_of_a_plan_locks_every_step() {
    let mut a = manifest_no_deps("a", "1");
    a.depends = deps(&["b >= 1"]);
    let plan = install("a", vec![a, manifest_no_deps("b", "2")]).unwrap();
    let lockfile = plan_to_lockfile(&plan);
    assert_eq!(lockfile.packages.len(), 2);
    assert_eq!(lockfile.packages[0], locked("b", "2", 0));
    assert_eq!(lockfile.packages[1], locked("a", "1", 0));
    assert_eq!(lockfile.packages_for_name(&name("b")).len(), 1);
}

#[test]
fn empty_plan_is_the_default() {
    assert_eq!(Plan::default(), Plan { steps: vec![], satisfied_by_system: vec![] });
}

#[test]
fn latest_version_is_chosen_for_an_upgrade() {
    let packages = || {
        vec![
            manifest_no_deps("a", "1.9"),
            manifest_no_deps("a", "1.10"),
            manifest_no_deps("a", "1.2"),
        ]
    };
    let available = AvailablePackages::from_packages(packages());
    let installed = InstalledDb::from(vec![entry("a", "1.9")]);
    let keep = Request::Install { name: name("a") };
    let plan = resolve(keep.clone(), &available, &installed, None, None).unwrap();
    assert_eq!(step_names(&plan), vec!["a-1.9"]);
    assert_eq!(keep, Request::Install { name: name("a") });
    let upgrade = Request::Upgrade { name: name("a") };
    let plan = resolve(upgrade, &available, &installed, None, None).unwrap();
    assert_eq!(step_names(&plan), vec!["a-1.10"]);
    assert_eq!(plan.clone(), plan);
    let plan = install("a", packages()).unwrap();
    assert_eq!(step_names(&plan), vec!["a-1.10"]);
}

#[test]
fn an_empty_system_is_as_none() {
    let mut a = manifest_no_deps("a", "1");
    a.depends = deps(&["b >= 1"]);
    let available = AvailablePackages::from_packages(vec![a, manifest_no_deps("b", "1")]);
    let installed = InstalledDb::default();
    let system = SystemPackages::default();
    let request = Request::Install { name: name("a") };
    let with = resolve(request.clone(), &available, &installed, None, Some(&system)).unwrap();
    let without = resolve(request, &available, &installed, None, None).unwrap();
    assert_eq!(with, without);
    assert!(with.satisfied_by_system.is_empty());
}

#[test]
fn a_package_selected_under_two_names_has_one_step() {
    let mut p = manifest_no_deps("p", "1");
    p.provides = vec!["editor".to_string()];
    let mut a = manifest_no_deps("a", "1");
    a.depends = deps(&["editor >= 0", "p >= 1"]);
    let plan = install("a", vec![a, p]).unwrap();
    assert_eq!(step_names(&plan), vec!["p-1", "a-1"]);
}

#[test]
fn circular_dependencies_have_no_plan() {
    let mut a = manifest_no_deps("a", "1");
    a.depends = deps(&["b >= 1"]);
    let mut b = manifest_no_deps("b", "1");
    b.depends = deps(&["c >= 1"]);
    let mut c = manifest_no_deps("c", "1");
    c.depends = deps(&["b >= 1"]);
    let e = install("a", vec![a.clone(), b.clone(), c.clone()]).unwrap_err();
    assert_eq!((e.kind, e.package.as_deref()), (FailureKind::Cycle, Some("b")));
    // A dependency that the system satisfies closes no circle.
    let available = AvailablePackages::from_packages(vec![a, b, c]);
    let installed = InstalledDb::default();
    let system = SystemPackages::from_map(vec![("c", "1")]);
    let request = Request::Install { name: name("a") };
    let plan = resolve(request, &available, &installed, None, Some(&system)).unwrap();
    assert_eq!(step_names(&plan), vec!["b-1", "a-1"]);
}

#[test]
fn all_of_an_alternative_comes_before_its_dependent() {
    let mut a = manifest_no_deps("a", "1.0");
    a.depends_any = vec![deps(&["b >= 1", "c >= 1"])];
    let plan =
        install("a", vec![a, manifest_no_deps("b", "1.0"), manifest_no_deps("c", "1.0")]).unwrap();
    assert_eq!(step_names(&plan), vec!["b-1.0", "c-1.0", "a-1.0"]);
}

#[test]
fn an_alternative_that_is_not_used_upsets_no_order() {
    let mut a = manifest_no_deps("a", "1.0");
    a.depends_any = vec![deps(&["x >= 1"]), deps(&["c >= 1"])];
    let plan = install(
        "d",
        vec![
            a,
            manifest_no_deps("x", "1.0"),
            needing("c", "1.0", &["a >= 1"]),
            needing("d", "1.0", &["a >= 1", "c >= 1"]),
        ],
    )
    .unwrap();
    assert_eq!(step_names(&plan), vec!["x-1.0", "a-1.0", "c-1.0", "d-1.0"]);
}

#[test]
fn alternatives_that_name_each_other_have_a_plan() {
    let mut a = manifest_no_deps("a", "1.0");
    a.depends_any = vec![deps(&["x >= 1"])];
    let mut x = manifest_no_deps("x", "1.0");
    x.depends_any = vec![deps(&["y >= 1"]), deps(&["a >= 1"])];
    let plan = install("a", vec![a, x, manifest_no_deps("y", "1.0")]).unwrap();
    assert_eq!(step_names(&plan), vec!["y-1.0", "x-1.0", "a-1.0"]);
}

#[test]
fn a_lockfile_gives_its_plan_again() {
    let packages = || {
        vec![
            needing("a", "1.0", &["b < 3", "c >= 1"]),
            manifest_no_deps("b", "2.0"),
            manifest_no_deps("b", "1.0"),
            needing("c", "1.5", &["b >= 1"]),
        ]
    };
    let plan = install("a", packages()).unwrap();
    assert_eq!(step_names(&plan), vec!["b-2.0", "c-1.5", "a-1.0"]);
    let lockfile = plan_to_lockfile(&plan);
    let mut more = packages();
    more.push(manifest_no_deps("b", "2.5"));
    let later = install("a", more.clone()).unwrap();
    assert_eq!(step_names(&later), vec!["b-2.5", "c-1.5", "a-1.0"]);
    for list in [packages(), more] {
        let again = resolve(
            Request::Install { name: name("a") },
            &AvailablePackages::from_packages(list),
            &InstalledDb::default(),
            Some((&lockfile, LockfileMode::Strict)),
            None,
        )
        .unwrap();
        assert_eq!(step_names(&again), step_names(&plan));
        assert_eq!(again.steps.len(), plan.steps.len());
    }
}

fn locked_again(root: &str, packages: Vec<Manifest>, plan: &Plan) -> Plan {
    let lockfile = plan_to_lockfile(plan);
    resolve(
        Request::Install { name: name(root) },
        &AvailablePackages::from_packages(packages),
        &InstalledDb::default(),
        Some((&lockfile, LockfileMode::Strict)),
        None,
    )
    .unwrap()
}

#[test]
fn a_lockfile_gives_its_plan_again_with_alternatives() {
    let packages = || {
        let mut a = manifest_no_deps("a", "1");
        a.depends_any = vec![deps(&["x >= 1", "b >= 1"]), deps(&["b >= 1", "y >= 1"])];
        vec![
            a,
            manifest_no_deps("b", "1"),
            needing("x", "1", &["missing >= 1"]),
            manifest_no_deps("y", "2"),
            manifest_no_deps("y", "1"),
        ]
    };
    let plan = install("a", packages()).unwrap();
    assert_eq!(step_names(&plan), vec!["b-1", "y-2", "a-1"]);
    assert_eq!(step_names(&locked_again("a", packages(), &plan)), step_names(&plan));
}

#[test]
fn a_lockfile_can_open_another_alternative() {
    let packages = || {
        let mut a = manifest_no_deps("a", "1");
        a.depends_any = vec![deps(&["x >= 1"]), deps(&["y >= 1"])];
        vec![
            a,
            manifest_no_deps("x", "1"),
            needing("x", "2", &["missing >= 1"]),
            manifest_no_deps("y", "1"),
            needing("d", "1", &["a >= 1", "x = 1"]),
        ]
    };
    let plan = install("d", packages()).unwrap();
    assert_eq!(step_names(&plan), vec!["x-1", "y-1", "a-1", "d-1"]);
    let again = locked_again("d", packages(), &plan);
    assert_eq!(step_names(&again), vec!["x-1", "a-1", "d-1"]);
}

fn install_beside(
    root: &str,
    packages: Vec<Manifest>,
    system: Vec<(&str, &str)>,
) -> Result<Plan, ResolverFailure> {
    let available = AvailablePackages::from_packages(packages);
    let system = SystemPackages::from_map(system);
    let request = Request::Install { name: name(root) };
    resolve(request, &available, &InstalledDb::default(), None, Some(&system))
}

fn needing(n: &str, version: &str, list: &[&str]) -> Manifest {
    let mut m = manifest_no_deps(n, version);
    m.depends = deps(list);
    m
}

#[test]
fn what_is_selected_is_not_left_to_the_system() {
    let packages = vec![
        needing("a", "1", &["b >= 1", "c >= 1"]),
        needing("c", "1", &["b >= 2"]),
        manifest_no_deps("b", "2.0"),
    ];
    let plan = install_beside("a", packages, vec![("b", "1.0")]).unwrap();
    assert_eq!(step_names(&plan), vec!["b-2.0", "c-1", "a-1"]);
    assert!(plan.satisfied_by_system.is_empty());
}

#[test]
fn a_selected_version_must_meet_what_the_system_met() {
    let packages = vec![
        needing("a", "1", &["b < 2", "c >= 1"]),
        needing("c", "1", &["b >= 2"]),
        manifest_no_deps("b", "2.0"),
    ];
    let e = install_beside("a", packages, vec![("b", "1.0")]).unwrap_err();
    assert_eq!((e.kind, e.package.as_deref()), (FailureKind::Unsatisfiable, Some("b")));
    assert_eq!(e.version_constraint.as_deref(), Some("b < 2"));
    assert_eq!(e.available_versions.unwrap()[0].as_str(), "2.0");
}

#[test]
fn a_circle_that_the_system_hid_has_no_plan() {
    let packages = vec![
        needing("a", "1", &["b >= 1"]),
        needing("b", "2.0", &["a >= 1"]),
        needing("c", "1", &["b >= 2"]),
        needing("d", "1", &["a >= 1", "c >= 1"]),
    ];
    let e = install_beside("d", packages, vec![("b", "1.0")]).unwrap_err();
    assert_eq!((e.kind, e.package.as_deref()), (FailureKind::Cycle, Some("a")));
}

#[test]
fn a_provider_is_not_left_to_the_system_under_its_own_name() {
    let mut vim = manifest_no_deps("vim", "9");
    vim.provides = vec!["editor".to_string()];
    let packages = vec![
        needing("a", "1", &["vim >= 8", "z >= 1"]),
        needing("z", "1", &["editor >= 1"]),
        vim,
    ];
    let plan = install_beside("a", packages, vec![("vim", "8.2")]).unwrap();
    assert_eq!(step_names(&plan), vec!["vim-9", "z-1", "a-1"]);
    assert!(plan.satisfied_by_system.is_empty());
}

#[test]
fn of_versions_that_rank_equal_the_last_is_the_latest() {
    let list = vec![
        manifest_no_deps("a", "1.0"),
        manifest_no_deps("a", "0.9"),
        manifest_no_deps("a", "1.00"),
    ];
    let available = AvailablePackages::from_packages(list);
    assert_eq!(available.get_latest(&name("a")).unwrap().version.as_str(), "1.00");
    let list = vec![manifest_no_deps("a", "1.00"), manifest_no_deps("a", "1.0")];
    let available = AvailablePackages::from_packages(list);
    assert_eq!(available.get_latest(&name("a")).unwrap().version.as_str(), "1.0");
    assert!(available.get_latest(&name("b")).is_none());
}
