//! Transactions.

use sic::package_name::PackageName;
use sic::resolver::{Plan, PlanAction, PlanStep};
use sic::source::{Source, SourceHash};
use sic::storage::{InstalledDb, InstalledEntry, InstalledLoadError, Stored};
use sic::transaction::{
    apply_step, backup_and_remove_pkg, backup_dir, backup_pkg, compute_new_installed_db,
    copy_tree_with_backup, installed_backup_path, links_for_package, list_relative_files, log_line,
    needs_backup, restore_backup_dir, staging_path, symlinks_pointing_to, transaction_log_path,
    CommitAction, CommitEvent, EntryKind, RemovalAction, RollbackAction, Staged, StepAction,
    Transaction, TransactionError, TransactionState, TransactionType, TreeAction, TreeEntry,
    LOCK_FILENAME,
};
use sic::version::Version;

fn step(name: &str, version: &str, action: PlanAction) -> PlanStep {
    PlanStep {
        name: PackageName::new(name).unwrap(),
        version: Version::new(version).unwrap(),
        revision: 0,
        source: Source {
            kind: "tarball".to_string(),
            url: format!("https://example.com/{}.tar.gz", name),
            hash: SourceHash::parse("sha256:deadbeef").unwrap(),
        },
        files: vec![],
        action,
    }
}

fn fake_plan_step(name: &str, version: &str) -> PlanStep {
    step(name, version, PlanAction::Install)
}

fn plan(steps: Vec<PlanStep>) -> Plan {
    Plan { steps, satisfied_by_system: vec![] }
}

fn entry(name: &str, version: &str) -> InstalledEntry {
    InstalledEntry {
        name: PackageName::new(name).unwrap(),
        version: Version::new(version).unwrap(),
        revision: 0,
        install_path: format!("pkgs/{}-{}", name, version),
        files: vec![],
        file_checksums: vec![],
    }
}

fn tree(list: &[(&str, EntryKind)]) -> Vec<TreeEntry> {
    list.iter().map(|(p, k)| TreeEntry { path: p.to_string(), kind: *k }).collect()
}

fn versions(db: &InstalledDb) -> Vec<String> {
    db.list_all()
        .iter()
        .map(|e| format!("{}-{}", e.name.as_str(), e.version.as_str()))
        .collect()
}

#[test]
fn transaction_new_creates_staging_and_log() {
    let tx = Transaction::new(TransactionType::Install, Plan::default(), "id-1");
    assert_eq!(tx.state, TransactionState::Pending);
    assert_eq!(staging_path(&tx.id), "tmp/id-1");
    assert_eq!(transaction_log_path(&tx.id), "var/transactions/id-1.log");
    let content = log_line(1700000000, &tx.id, "created");
    assert!(content.contains("created"));
    assert!(content.contains(&tx.id.to_string()));
    assert_eq!(content, "1700000000 tx=id-1 state=created\n");
}

#[test]
fn paths_of_a_transaction() {
    assert_eq!(backup_dir("x"), "backups/x");
    assert_eq!(installed_backup_path("x"), "var/backups/installed.x.toml");
    assert_eq!(LOCK_FILENAME, "var/sic.lock");
}

fn commit(tx: &mut Transaction, applied: Result<(), TransactionError>) -> Vec<CommitAction> {
    let mut seen = vec![];
    let mut action = tx.commit();
    let mut applied = Some(applied);
    loop {
        let event = match &action {
            CommitAction::Lock => CommitEvent::Locked(Ok(())),
            CommitAction::Load => CommitEvent::Loaded(Ok(())),
            CommitAction::SaveDatabase => CommitEvent::Saved(Ok(())),
            CommitAction::Apply => CommitEvent::Applied(applied.take().unwrap()),
            CommitAction::WriteDatabase => CommitEvent::Written(Ok(())),
            CommitAction::RollBack(e) => {
                let e = e.clone();
                tx.rollback(&vec![true; tx.plan.steps.len()], true).unwrap();
                tx.rolled_back(Some("commit failure"));
                CommitEvent::RolledBack(e)
            }
            CommitAction::RemoveStaging => CommitEvent::StagingRemoved(Ok(())),
            CommitAction::LogCommitted => CommitEvent::Logged(Ok(())),
            CommitAction::Done | CommitAction::Fail(_) => {
                seen.push(action);
                return seen;
            }
        };
        seen.push(action);
        action = tx.next(event);
    }
}

#[test]
fn commit_with_one_staged_file_updates_installed_toml() {
    let steps = plan(vec![fake_plan_step("foo", "1.0")]);
    let staged = vec![Some(tree(&[("bin", EntryKind::Directory), ("bin/foo", EntryKind::File)]))];
    let mut tx =
        Transaction::new(TransactionType::Install, plan(vec![fake_plan_step("foo", "1.0")]), "i");
    let seen = commit(&mut tx, Ok(()));
    assert_eq!(tx.state, TransactionState::Committed);
    assert_eq!(
        seen,
        vec![
            CommitAction::Lock,
            CommitAction::Load,
            CommitAction::SaveDatabase,
            CommitAction::Apply,
            CommitAction::WriteDatabase,
            CommitAction::RemoveStaging,
            CommitAction::LogCommitted,
            CommitAction::Done
        ]
    );
    let db = compute_new_installed_db(&InstalledDb::default(), &steps, &staged).unwrap();
    let entry = db.get_by_name(&PackageName::new("foo").unwrap()).unwrap();
    assert_eq!(entry.version.as_str(), "1.0");
    assert_eq!(entry.install_path, "pkgs/foo-1.0");
    assert!(entry.files.iter().any(|f| f.contains("bin/foo")));
}

#[test]
fn commit_failure_triggers_rollback() {
    let steps = plan(vec![fake_plan_step("a", "1.0"), fake_plan_step("b", "1.0")]);
    let mut tx = Transaction::new(TransactionType::Install, steps, "i");
    let (_, failure) =
        apply_step(&tx.plan.steps[1], &InstalledDb::default(), Staged::NotDirectory);
    let failure = failure.unwrap();
    assert_eq!(failure.to_string(), "staging package path must be a directory");
    assert_eq!(tx.copied_dirs(&vec![true, false]), vec!["a-1.0"]);
    let seen = commit(&mut tx, Err(failure.clone()));
    assert_eq!(tx.state, TransactionState::RolledBack);
    assert_eq!(seen[4], CommitAction::RollBack(failure.clone()));
    assert_eq!(seen[5], CommitAction::Fail(failure));
}

#[test]
fn only_pending_transactions_change() {
    let mut tx = Transaction::new(TransactionType::Remove, Plan::default(), "i");
    commit(&mut tx, Ok(()));
    assert_eq!(
        tx.commit(),
        CommitAction::Fail(TransactionError::msg("commit only allowed when state is Pending"))
    );
    assert_eq!(
        tx.rollback(&vec![], true).unwrap_err().to_string(),
        "rollback only allowed when state is Pending"
    );
    tx.next(CommitEvent::Logged(Ok(())));
    assert_eq!(tx.state, TransactionState::Committed);
    tx.state = TransactionState::RolledBack;
    tx.next(CommitEvent::Logged(Ok(())));
    assert_eq!(tx.state, TransactionState::RolledBack);
}

#[test]
fn failures_of_a_commit() {
    let mut tx = Transaction::new(TransactionType::Install, Plan::default(), "i");
    let e = || TransactionError::lock_err("busy");
    assert_eq!(e().to_string(), "lock: busy");
    assert_eq!(tx.next(CommitEvent::Locked(Err(e()))), CommitAction::Fail(e()));
    let bad = InstalledLoadError::Parse("bad".to_string());
    assert_eq!(
        tx.next(CommitEvent::Loaded(Err(bad))),
        CommitAction::Fail(TransactionError::msg(
            "load installed.toml: installed.toml parse error: bad"
        ))
    );
    assert_eq!(tx.next(CommitEvent::Saved(Err(e()))), CommitAction::RollBack(e()));
    assert_eq!(tx.next(CommitEvent::Applied(Err(e()))), CommitAction::RollBack(e()));
    assert_eq!(tx.next(CommitEvent::Written(Err(e()))), CommitAction::RollBack(e()));
    assert_eq!(tx.next(CommitEvent::StagingRemoved(Err(e()))), CommitAction::RollBack(e()));
    assert_eq!(tx.state, TransactionState::Pending);
    assert_eq!(tx.next(CommitEvent::Logged(Err(e()))), CommitAction::RollBack(e()));
    assert_eq!(tx.state, TransactionState::Pending);
    assert_eq!(tx.next(CommitEvent::RolledBack(e())), CommitAction::Fail(e()));
    assert_eq!(TransactionError::io_err("x").to_string(), "transaction io: x");
}

#[test]
fn rollback_labels_and_directories() {
    let steps = plan(vec![
        fake_plan_step("a", "1.0"),
        step("b", "1.0", PlanAction::Remove),
        step("c", "2.0", PlanAction::Upgrade),
    ]);
    let mut tx = Transaction::new(TransactionType::Install, steps, "i");
    assert_eq!(tx.copied_dirs(&vec![true, false, true]), vec!["a-1.0", "c-2.0"]);
    assert!(tx.copied_dirs(&vec![false, false, false]).is_empty());
    let delete = |dir: &str| RollbackAction::DeletePackage { dir_name: dir.to_string() };
    assert_eq!(
        tx.rollback(&vec![true, false, true], true).unwrap(),
        vec![
            delete("a-1.0"),
            delete("c-2.0"),
            RollbackAction::RestoreDatabase,
            RollbackAction::RestoreBackups,
            RollbackAction::RemoveBackups,
            RollbackAction::RemoveStaging
        ]
    );
    assert_eq!(
        tx.rollback(&vec![false, false, false], false).unwrap(),
        vec![
            RollbackAction::RestoreBackups,
            RollbackAction::RemoveBackups,
            RollbackAction::RemoveStaging
        ]
    );
    assert_eq!(tx.rolled_back(None), "rolled_back");
    assert_eq!(tx.state, TransactionState::RolledBack);
    let mut tx = Transaction::new(TransactionType::Install, Plan::default(), "i");
    assert_eq!(tx.rolled_back(Some("test")), "rolled_back reason=test");
}

#[test]
fn remove_commit_removes_pkg_and_updates_installed_toml() {
    let steps = plan(vec![step("foo", "1.0", PlanAction::Remove)]);
    let db = InstalledDb::from(vec![entry("foo", "1.0"), entry("other", "2")]);
    let (actions, failure) = apply_step(&steps.steps[0], &db, Staged::Missing);
    assert_eq!(
        actions,
        vec![StepAction::RemovePackage {
            dir_name: "foo-1.0".to_string(),
            install_path: "pkgs/foo-1.0".to_string()
        }]
    );
    assert!(failure.is_none());
    let after = compute_new_installed_db(&db, &steps, &vec![None]).unwrap();
    assert!(after.get_by_name(&PackageName::new("foo").unwrap()).is_none());
    assert_eq!(versions(&after), vec!["other-2"]);
}

#[test]
fn upgrade_commit_removes_old_then_installs_new_rollback_restores_old() {
    let s = step("foo", "2.0", PlanAction::Upgrade);
    let db = InstalledDb::from(vec![entry("foo", "1.0")]);
    let (actions, failure) = apply_step(&s, &db, Staged::Directory);
    assert_eq!(
        actions,
        vec![
            StepAction::RemovePackage {
                dir_name: "foo-1.0".to_string(),
                install_path: "pkgs/foo-1.0".to_string()
            },
            StepAction::BackupPackage { dir_name: "foo-2.0".to_string() },
            StepAction::CopyPackage { dir_name: "foo-2.0".to_string() }
        ]
    );
    assert!(failure.is_none());
    let staged = vec![Some(tree(&[("bin/foo", EntryKind::File)]))];
    let steps = plan(vec![s]);
    let after = compute_new_installed_db(&db, &steps, &staged).unwrap();
    assert_eq!(versions(&after), vec!["foo-2.0"]);

    let mut tx = Transaction::new(TransactionType::Upgrade, steps, "i");
    commit(&mut tx, Ok(()));
    assert_eq!(tx.state, TransactionState::Committed);
    tx.state = TransactionState::Pending;
    let actions = tx.rollback(&vec![true], true).unwrap();
    assert_eq!(actions[0], RollbackAction::DeletePackage { dir_name: "foo-2.0".to_string() });
    assert_eq!(actions[1], RollbackAction::RestoreDatabase);
    assert_eq!(actions[2], RollbackAction::RestoreBackups);
    assert_eq!(tx.rolled_back(Some("test")), "rolled_back reason=test");
    assert_eq!(tx.state, TransactionState::RolledBack);
    let saved = tree(&[
        ("pkgs", EntryKind::Directory),
        ("pkgs/foo-1.0", EntryKind::Directory),
        ("pkgs/foo-1.0/bin", EntryKind::Directory),
        ("pkgs/foo-1.0/bin/foo", EntryKind::File),
    ]);
    let (restored, failure) = restore_backup_dir(&saved);
    assert_eq!(restored[3], TreeAction::CopyFile(3));
    assert!(failure.is_none());
}

#[test]
fn steps_that_are_not_staged() {
    let db = InstalledDb::default();
    let (actions, failure) = apply_step(&fake_plan_step("a", "1"), &db, Staged::Missing);
    assert!(actions.is_empty() && failure.is_none());
    let upgrade = step("a", "1", PlanAction::Upgrade);
    let (actions, failure) = apply_step(&upgrade, &db, Staged::Directory);
    assert_eq!(
        actions,
        vec![
            StepAction::BackupPackage { dir_name: "a-1".to_string() },
            StepAction::CopyPackage { dir_name: "a-1".to_string() }
        ]
    );
    assert!(failure.is_none());
    let (actions, failure) = apply_step(&fake_plan_step("a", ".."), &db, Staged::Directory);
    assert!(actions.is_empty());
    assert!(failure.is_some());
}

#[test]
fn new_database_keeps_what_no_step_is_about() {
    let current = InstalledDb::from(vec![entry("a", "1"), entry("b", "1"), entry("c", "1")]);
    let steps = plan(vec![
        step("b", "2", PlanAction::Upgrade),
        step("c", "1", PlanAction::Remove),
        step("d", "1", PlanAction::Install),
    ]);
    let after = compute_new_installed_db(&current, &steps, &vec![None, None, None]).unwrap();
    assert_eq!(versions(&after), vec!["a-1", "b-2", "d-1"]);
    let a = PackageName::new("a").unwrap();
    assert_eq!(after.get_by_name(&a), current.get_by_name(&a));
}

#[test]
fn last_step_about_a_package_decides() {
    let current = InstalledDb::default();
    let steps = plan(vec![
        step("a", "1", PlanAction::Install),
        step("a", "2", PlanAction::Install),
        step("b", "1", PlanAction::Install),
        step("b", "1", PlanAction::Remove),
    ]);
    let after = compute_new_installed_db(&current, &steps, &vec![None, None, None, None]).unwrap();
    assert_eq!(versions(&after), vec!["a-2"]);
}

#[test]
fn new_database_errors() {
    let current = InstalledDb::default();
    let bad = plan(vec![fake_plan_step("a", "1/2")]);
    assert!(compute_new_installed_db(&current, &bad, &vec![None]).is_err());
    let deep = vec!["d"; 256].join("/");
    let staged = vec![Some(tree(&[(deep.as_str(), EntryKind::Directory)]))];
    let good = plan(vec![fake_plan_step("a", "1")]);
    assert_eq!(
        compute_new_installed_db(&current, &good, &staged).unwrap_err().to_string(),
        "directory tree too deep when listing package files"
    );
}

#[test]
fn listing_files() {
    let entries = tree(&[
        ("bin", EntryKind::Directory),
        ("bin/a", EntryKind::File),
        ("bin/l", EntryKind::Link),
        ("x\\y", EntryKind::File),
    ]);
    assert_eq!(list_relative_files(&entries).unwrap(), vec!["bin/a", "bin/l", "x/y"]);
    let deep = vec!["d"; 256].join("/");
    assert!(list_relative_files(&tree(&[(deep.as_str(), EntryKind::Link)])).is_ok());
    assert!(list_relative_files(&tree(&[(deep.as_str(), EntryKind::Directory)])).is_err());
}

#[test]
fn commit_preserves_symlink_in_staging() {
    let entries = tree(&[
        ("bin", EntryKind::Directory),
        ("bin/real", EntryKind::File),
        ("bin/link", EntryKind::Link),
    ]);
    let (actions, failure) = copy_tree_with_backup(&entries);
    assert_eq!(
        actions,
        vec![TreeAction::MakeDirectory(0), TreeAction::CopyFile(1), TreeAction::CopyLink(2)]
    );
    assert!(failure.is_none());
}

#[test]
fn trees_that_are_too_deep_are_copied_up_to_there() {
    let deep = vec!["d"; 256].join("/");
    let entries = tree(&[
        ("a", EntryKind::File),
        (deep.as_str(), EntryKind::Directory),
        ("z", EntryKind::File),
    ]);
    let (actions, failure) = copy_tree_with_backup(&entries);
    assert_eq!(actions, vec![TreeAction::CopyFile(0), TreeAction::MakeDirectory(1)]);
    assert_eq!(
        failure.unwrap().to_string(),
        "staging tree too deep when copying package files"
    );
    let (actions, failure) = restore_backup_dir(&entries);
    assert_eq!(actions, vec![TreeAction::CopyFile(0), TreeAction::MakeDirectory(1)]);
    assert_eq!(
        failure.unwrap().to_string(),
        "transaction io: backup tree too deep when restoring"
    );
}

#[test]
fn rollback_remove_restores_pkg() {
    let entries = tree(&[
        ("pkgs", EntryKind::Directory),
        ("pkgs/foo-1.0", EntryKind::Directory),
        ("pkgs/foo-1.0/bin/foo", EntryKind::File),
        ("bin/foo", EntryKind::Link),
    ]);
    let (actions, failure) = restore_backup_dir(&entries);
    assert_eq!(
        actions,
        vec![
            TreeAction::MakeDirectory(0),
            TreeAction::MakeDirectory(1),
            TreeAction::CopyFile(2),
            TreeAction::CopyLink(3)
        ]
    );
    assert!(failure.is_none());
    let entries = tree(&[("a", EntryKind::File), ("a/../b", EntryKind::File)]);
    let (actions, failure) = restore_backup_dir(&entries);
    assert_eq!(actions, vec![TreeAction::CopyFile(0)]);
    assert_eq!(failure.unwrap().to_string(), "transaction io: backup path must not contain ..");
}

#[test]
fn links_into_a_package() {
    let links = |list: &[(&str, &str)]| {
        list.iter().map(|(a, b)| (a.to_string(), b.to_string())).collect::<Vec<_>>()
    };
    let found = symlinks_pointing_to(
        &links(&[
            ("/p/bin/a", "/p/pkgs/foo-1.0/bin/a"),
            ("/p/bin/b", "/p/pkgs/foo-1.0.1/bin/b"),
            ("/p/bin/c", "/p/bin/../pkgs/foo-1.0/bin/c"),
            ("/p/bin/d", "/p//pkgs/./foo-1.0"),
            ("/p/bin/e", "p/pkgs/foo-1.0/bin/e"),
        ]),
        "/p/pkgs/foo-1.0",
    );
    assert_eq!(found, vec![0, 3]);
}

#[test]
fn a_package_is_backed_up_before_it_is_removed() {
    assert_eq!(
        backup_and_remove_pkg(true, &vec![4, 2]),
        vec![
            RemovalAction::BackupTree,
            RemovalAction::BackupLink(4),
            RemovalAction::RemoveLink(4),
            RemovalAction::BackupLink(2),
            RemovalAction::RemoveLink(2),
            RemovalAction::RemoveTree
        ]
    );
    assert_eq!(backup_and_remove_pkg(false, &vec![]), vec![RemovalAction::RemoveTree]);
}

#[test]
fn programs_and_manual_pages_get_links() {
    let files = vec![
        "bin/foo".to_string(),
        "share/man/man1/foo.1".to_string(),
        "share/doc/foo".to_string(),
        "binary".to_string(),
    ];
    let links = links_for_package("foo-1.0", &files);
    assert_eq!(
        links,
        vec![
            ("bin/foo".to_string(), "pkgs/foo-1.0/bin/foo".to_string()),
            (
                "share/man/man1/foo.1".to_string(),
                "pkgs/foo-1.0/share/man/man1/foo.1".to_string()
            )
        ]
    );
    let resolved: Vec<(String, String)> =
        links.iter().map(|(at, to)| (format!("/p/{}", at), format!("/p/{}", to))).collect();
    assert_eq!(symlinks_pointing_to(&resolved, "/p/pkgs/foo-1.0"), vec![0, 1]);
    assert!(symlinks_pointing_to(&resolved, "/p/pkgs/foo-1").is_empty());
}

#[test]
fn failure_after_applying_is_rolled_back() {
    let mut tx = Transaction::new(TransactionType::Install, Plan::default(), "i");
    let e = TransactionError::io_err("busy");
    assert_eq!(tx.commit(), CommitAction::Lock);
    assert_eq!(tx.next(CommitEvent::Applied(Ok(()))), CommitAction::WriteDatabase);
    assert_eq!(tx.next(CommitEvent::Written(Ok(()))), CommitAction::RemoveStaging);
    assert_eq!(tx.next(CommitEvent::StagingRemoved(Err(e.clone()))), CommitAction::RollBack(e));
    assert_eq!(tx.rollback(&vec![], true).unwrap()[0], RollbackAction::RestoreDatabase);
    tx.rolled_back(Some("commit failure"));
    assert_eq!(tx.state, TransactionState::RolledBack);
}

#[test]
fn a_package_is_backed_up_in_place() {
    assert_eq!(
        backup_pkg(true, &vec![4, 2]),
        vec![RemovalAction::BackupTree, RemovalAction::BackupLink(4), RemovalAction::BackupLink(2)]
    );
    assert!(backup_pkg(false, &vec![]).is_empty());
}

#[test]
fn what_needs_a_backup() {
    let copied = vec!["foo-1.0".to_string()];
    assert!(needs_backup("pkgs/bar-1/x", None, false, &copied));
    assert!(!needs_backup("pkgs/bar-1/x", None, true, &copied));
    assert!(!needs_backup("pkgs/foo-1.0/x", None, false, &copied));
    assert!(needs_backup("pkgs/foo-1.0/x", None, false, &vec![]));
    assert!(!needs_backup("bin/foo", Some("pkgs/foo-1.0/bin/foo"), false, &copied));
    assert!(needs_backup("bin/foo", Some("pkgs/foo-1.0.1/bin/foo"), false, &copied));
    assert!(needs_backup("etc/foo", Some("pkgs/foo-1.0/bin/foo"), false, &copied));
}

#[test]
fn the_empty_database_stands_in_for_a_missing_one() {
    assert!(InstalledDb::stand_in(true).is_none());
    let db = InstalledDb::stand_in(false).unwrap();
    let stored = Stored::Document(db.list_all().clone());
    assert!(InstalledDb::load(stored).unwrap().list_all().is_empty());
}
