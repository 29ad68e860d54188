//! A rollback undoes a transaction, however far it got.

use std::collections::BTreeMap;

use sic::package_name::PackageName;
use sic::resolver::{Plan, PlanAction, PlanStep};
use sic::source::{Source, SourceHash};
use sic::storage::{InstalledDb, InstalledEntry, Stored};
use sic::transaction::{
    apply_step, backup_and_remove_pkg, backup_pkg, compute_new_installed_db, copy_tree_with_backup,
    links_for_package, list_relative_files, needs_backup, symlinks_pointing_to, CommitAction,
    CommitEvent, EntryKind, RemovalAction, RollbackAction, Staged, StepAction, Transaction,
    TransactionState, TransactionType, TreeAction, TreeEntry,
};
use sic::version::Version;

/// A file holds a text; a link is written as `-> target`.
type Files = BTreeMap<String, String>;

#[derive(Clone, Debug, PartialEq)]
struct Disk {
    files: Files,
    backup: Files,
    copied: Vec<bool>,
    database: Option<Vec<InstalledEntry>>,
    saved: Option<Vec<InstalledEntry>>,
    staging: bool,
}

impl Disk {
    fn new(files: Files, steps: usize, database: Option<Vec<InstalledEntry>>) -> Disk {
        let copied = vec![false; steps];
        Disk { files, backup: Files::new(), copied, database, saved: None, staging: true }
    }

    fn load(&self) -> InstalledDb {
        match &self.database {
            Some(entries) => InstalledDb::load(Stored::Document(entries.clone())).unwrap(),
            None => InstalledDb::load(Stored::Missing).unwrap(),
        }
    }
}

#[derive(Clone, Debug)]
enum Change {
    Backup(String),
    Remove(String),
    Write(String, String),
    BeginCopy(usize),
    SaveDatabase,
    WriteDatabase(Vec<InstalledEntry>),
    RemoveStaging,
}

fn run(tx: &Transaction, d: &mut Disk, c: &Change) {
    match c {
        Change::Backup(p) => {
            if let Some(leaf) = d.files.get(p) {
                let copied = tx.copied_dirs(&d.copied);
                let backed_up = d.backup.contains_key(p);
                if needs_backup(p, leaf.strip_prefix("-> "), backed_up, &copied) {
                    d.backup.insert(p.clone(), leaf.clone());
                }
            }
        }
        Change::Remove(p) => {
            d.files.remove(p);
        }
        Change::Write(p, leaf) => {
            d.files.insert(p.clone(), leaf.clone());
        }
        Change::BeginCopy(i) => d.copied[*i] = true,
        Change::SaveDatabase => {
            d.saved = match InstalledDb::stand_in(d.database.is_some()) {
                Some(db) => Some(db.list_all().clone()),
                None => d.database.clone(),
            };
        }
        Change::WriteDatabase(entries) => d.database = Some(entries.clone()),
        Change::RemoveStaging => d.staging = false,
    }
}

fn links(files: &Files) -> (Vec<String>, Vec<(String, String)>) {
    let paths: Vec<String> =
        files.iter().filter(|(_, v)| v.starts_with("-> ")).map(|(p, _)| p.clone()).collect();
    let resolved = paths.iter().map(|p| (p.clone(), files[p][3..].to_string())).collect();
    (paths, resolved)
}

fn step(name: &str, version: &str, action: PlanAction) -> PlanStep {
    PlanStep {
        name: PackageName::new(name).unwrap(),
        version: Version::new(version).unwrap(),
        revision: 0,
        source: Source {
            kind: "tarball".to_string(),
            url: "https://x/a".to_string(),
            hash: SourceHash::parse("sha256:ab").unwrap(),
        },
        files: vec![],
        action,
    }
}

fn entry(name: &str, version: &str) -> InstalledEntry {
    InstalledEntry {
        name: PackageName::new(name).unwrap(),
        version: Version::new(version).unwrap(),
        revision: 0,
        install_path: format!("pkgs/{}-{}", name, version),
        files: vec![],
        file_checksums: vec![],
    }
}

/// What stands of a package: its files, the paths of all links, and which of them point into it.
fn standing(d: &Disk, dir: &str, path: &str) -> (Vec<String>, Vec<String>, Vec<usize>) {
    let top = format!("pkgs/{}/", dir);
    let files = d.files.keys().filter(|p| p.starts_with(&top)).cloned().collect();
    let (paths, resolved) = links(&d.files);
    let found = symlinks_pointing_to(&resolved, path);
    (files, paths, found)
}

fn trace(actions: Vec<RemovalAction>, files: &[String], links: &[String]) -> Vec<Change> {
    let mut out = vec![];
    for a in actions {
        match a {
            RemovalAction::BackupTree => out.extend(files.iter().cloned().map(Change::Backup)),
            RemovalAction::BackupLink(k) => out.push(Change::Backup(links[k].clone())),
            RemovalAction::RemoveLink(k) => out.push(Change::Remove(links[k].clone())),
            RemovalAction::RemoveTree => out.extend(files.iter().cloned().map(Change::Remove)),
        }
    }
    out
}

/// The changes of a step on the disk.
fn changes(
    d: &Disk,
    i: usize,
    s: &PlanStep,
    db: &InstalledDb,
    staged: &[(&str, &str)],
) -> Vec<Change> {
    let mut out = vec![];
    let kind = if staged.is_empty() { Staged::Missing } else { Staged::Directory };
    let (actions, failure) = apply_step(s, db, kind);
    assert!(failure.is_none());
    for action in actions {
        match action {
            StepAction::RemovePackage { dir_name, install_path } => {
                let (files, paths, found) = standing(d, &dir_name, &install_path);
                let actions = backup_and_remove_pkg(!files.is_empty(), &found);
                out.extend(trace(actions, &files, &paths));
            }
            StepAction::BackupPackage { dir_name } => {
                let (files, paths, found) = standing(d, &dir_name, &format!("pkgs/{}", dir_name));
                out.extend(trace(backup_pkg(!files.is_empty(), &found), &files, &paths));
            }
            StepAction::CopyPackage { dir_name } => {
                out.push(Change::BeginCopy(i));
                let entries: Vec<TreeEntry> = staged
                    .iter()
                    .map(|(p, _)| TreeEntry { path: p.to_string(), kind: EntryKind::File })
                    .collect();
                let (actions, failure) = copy_tree_with_backup(&entries);
                assert!(failure.is_none());
                for a in actions {
                    if let TreeAction::CopyFile(k) = a {
                        let path = format!("pkgs/{}/{}", dir_name, staged[k].0);
                        out.push(Change::Backup(path.clone()));
                        out.push(Change::Write(path, staged[k].1.to_string()));
                    }
                }
                let files = list_relative_files(&entries).unwrap();
                for (at, target) in links_for_package(&dir_name, &files) {
                    out.push(Change::Backup(at.clone()));
                    out.push(Change::Write(at, format!("-> {}", target)));
                }
            }
        }
    }
    out
}

fn roll_back(tx: &Transaction, d: &Disk) -> Disk {
    let mut d = d.clone();
    for action in tx.rollback(&d.copied, d.saved.is_some()).unwrap() {
        match action {
            RollbackAction::DeletePackage { dir_name } => {
                let top = format!("pkgs/{}", dir_name);
                let (paths, resolved) = links(&d.files);
                for k in symlinks_pointing_to(&resolved, &top) {
                    d.files.remove(&paths[k]);
                }
                d.files.retain(|p, _| !p.starts_with(&format!("{}/", top)));
            }
            RollbackAction::RestoreDatabase => d.database = d.saved.clone(),
            RollbackAction::RestoreBackups => d.files.extend(d.backup.clone()),
            RollbackAction::RemoveBackups => d.backup.clear(),
            RollbackAction::RemoveStaging => d.staging = false,
        }
    }
    d
}

/// Runs a change, and tries a rollback after it.
fn run_and_undo(tx: &Transaction, start: &Disk, d: &mut Disk, c: Change) {
    run(tx, d, &c);
    let end = roll_back(tx, d);
    assert_eq!(end.files, start.files, "after {:?}", c);
    assert_eq!(end.load(), start.load(), "after {:?}", c);
    if start.database.is_some() {
        assert_eq!(end.database, start.database);
    }
    assert!(end.backup.is_empty() && !end.staging);
}

fn staged_entries(staged: &[(&str, &str)]) -> Option<Vec<TreeEntry>> {
    if staged.is_empty() {
        return None;
    }
    let entry = |p: &str| TreeEntry { path: p.to_string(), kind: EntryKind::File };
    Some(staged.iter().map(|(p, _)| entry(p)).collect())
}

/// Commits the plan, with a rollback tried after every change. Returns the disk at the end.
fn commit(tx: &mut Transaction, start: Disk, staged: &[Vec<(&str, &str)>]) -> Disk {
    let mut disk = start.clone();
    let current = disk.load();
    let mut action = tx.commit();
    loop {
        let event = match action {
            CommitAction::Lock => CommitEvent::Locked(Ok(())),
            CommitAction::Load => CommitEvent::Loaded(Ok(())),
            CommitAction::SaveDatabase => {
                run_and_undo(tx, &start, &mut disk, Change::SaveDatabase);
                CommitEvent::Saved(Ok(()))
            }
            CommitAction::Apply => {
                for (i, s) in tx.plan.steps.iter().enumerate() {
                    for change in changes(&disk, i, s, &current, &staged[i]) {
                        run_and_undo(tx, &start, &mut disk, change);
                    }
                }
                CommitEvent::Applied(Ok(()))
            }
            CommitAction::WriteDatabase => {
                let entries = staged.iter().map(|s| staged_entries(s)).collect();
                let db = compute_new_installed_db(&current, &tx.plan, &entries).unwrap();
                let change = Change::WriteDatabase(db.list_all().clone());
                run_and_undo(tx, &start, &mut disk, change);
                CommitEvent::Written(Ok(()))
            }
            CommitAction::RemoveStaging => {
                run_and_undo(tx, &start, &mut disk, Change::RemoveStaging);
                CommitEvent::StagingRemoved(Ok(()))
            }
            CommitAction::LogCommitted => CommitEvent::Logged(Ok(())),
            CommitAction::Done => return disk,
            CommitAction::RollBack(e) | CommitAction::Fail(e) => panic!("{}", e.to_string()),
        };
        action = tx.next(event);
    }
}

/// Commits the steps, with a rollback tried after every change. Returns the files at the end.
fn undone_from_every_moment(
    start: &[(&str, &str)],
    db: &InstalledDb,
    steps: Vec<PlanStep>,
    staged: &[Vec<(&str, &str)>],
) -> Files {
    let start: Files = start.iter().map(|(a, b)| (a.to_string(), b.to_string())).collect();
    let entries = db.list_all().clone();
    let database = if entries.is_empty() { None } else { Some(entries) };
    let disk = Disk::new(start, steps.len(), database);
    let plan = Plan { steps, satisfied_by_system: vec![] };
    let mut tx = Transaction::new(TransactionType::Upgrade, plan, "i");
    let end = commit(&mut tx, disk, staged);
    assert!(!end.staging);
    end.files
}

#[test]
fn rollback_restores_installed_toml_and_removes_staging() {
    let plan = Plan {
        steps: vec![step("bar", "1.0", PlanAction::Install)],
        satisfied_by_system: vec![],
    };
    let mut tx = Transaction::new(TransactionType::Install, plan, "i");
    let before_db = InstalledDb::from(vec![entry("other", "1.0")]);
    let start = Disk::new(Files::new(), 1, Some(before_db.list_all().clone()));
    let disk = commit(&mut tx, start, &[vec![("file.txt", "data")]]);
    assert!(disk.files.contains_key("pkgs/bar-1.0/file.txt"));
    assert!(disk.load().get_by_name(&PackageName::new("bar").unwrap()).is_some());

    tx.state = TransactionState::Pending;
    let disk = roll_back(&tx, &disk);
    tx.rolled_back(Some("test"));
    assert_eq!(tx.state, TransactionState::RolledBack);
    assert!(!disk.staging);
    let db = disk.load();
    assert!(db.get_by_name(&PackageName::new("bar").unwrap()).is_none());
    assert!(db.get_by_name(&PackageName::new("other").unwrap()).is_some());
}

#[test]
fn rollback_without_a_database_gives_back_the_empty_one() {
    let plan = Plan {
        steps: vec![step("bar", "1.0", PlanAction::Install)],
        satisfied_by_system: vec![],
    };
    let mut tx = Transaction::new(TransactionType::Install, plan, "i");
    let start = Disk::new(Files::new(), 1, None);
    let disk = commit(&mut tx, start, &[vec![("file.txt", "data")]]);
    assert_eq!(disk.load().list_all().len(), 1);
    tx.state = TransactionState::Pending;
    let disk = roll_back(&tx, &disk);
    assert_eq!(disk.load(), InstalledDb::default());
}

#[test]
fn a_transaction_is_undone_from_every_moment() {
    let db = InstalledDb::from(vec![entry("foo", "1.0"), entry("baz", "3"), entry("same", "1")]);
    let files = undone_from_every_moment(
        &[
            ("pkgs/foo-1.0/bin/foo", "v1"),
            ("pkgs/foo-1.0/share/x", "x1"),
            ("bin/foo", "-> pkgs/foo-1.0/bin/foo"),
            ("pkgs/baz-3/bin/baz", "z"),
            ("pkgs/same-1/bin/same", "s"),
            ("bin/same", "-> pkgs/same-1/bin/same"),
            ("bin/own", "mine"),
            ("share/man/man1/foo.1", "-> pkgs/foo-1.0/share/x"),
        ],
        &db,
        vec![
            step("bar", "1", PlanAction::Install),
            step("foo", "2.0", PlanAction::Upgrade),
            step("baz", "3", PlanAction::Remove),
            step("same", "1", PlanAction::Upgrade),
        ],
        &[
            vec![("bin/bar", "b"), ("share/man/man1/bar.1", "m")],
            vec![("bin/foo", "v2")],
            vec![],
            vec![("bin/same", "s2")],
        ],
    );
    assert_eq!(files["pkgs/foo-2.0/bin/foo"], "v2");
    assert_eq!(files["bin/foo"], "-> pkgs/foo-2.0/bin/foo");
    assert_eq!(files["share/man/man1/bar.1"], "-> pkgs/bar-1/share/man/man1/bar.1");
    assert_eq!(files["pkgs/same-1/bin/same"], "s2");
    assert!(!files.contains_key("pkgs/baz-3/bin/baz"));
    assert!(!files.contains_key("pkgs/foo-1.0/bin/foo"));
    assert!(!files.contains_key("share/man/man1/foo.1"));
    assert_eq!(files["bin/own"], "mine");
}

#[test]
fn overwriting_is_undone_from_every_moment() {
    let files = undone_from_every_moment(
        &[
            ("pkgs/foo-1.0/bin/foo", "left over"),
            ("pkgs/foo-1.0/notes", "kept"),
            ("bin/foo", "-> pkgs/foo-1.0/bin/foo"),
            ("bin/old", "-> pkgs/foo-1.0/bin/old"),
            ("bin/tool", "mine"),
        ],
        &InstalledDb::default(),
        vec![
            step("foo", "1.0", PlanAction::Install),
            step("tools", "1", PlanAction::Install),
            step("other", "1", PlanAction::Install),
        ],
        &[
            vec![("bin/foo", "new")],
            vec![("bin/tool", "t1"), ("bin/shared", "s1")],
            vec![("bin/shared", "s2")],
        ],
    );
    assert_eq!(files["pkgs/foo-1.0/bin/foo"], "new");
    assert_eq!(files["pkgs/foo-1.0/notes"], "kept");
    assert_eq!(files["bin/tool"], "-> pkgs/tools-1/bin/tool");
    assert_eq!(files["bin/shared"], "-> pkgs/other-1/bin/shared");
}

#[test]
fn steps_that_share_a_directory_are_undone_from_every_moment() {
    let files = undone_from_every_moment(
        &[("pkgs/a-b-1/bin/x", "old"), ("pkgs/a-b-1/y", "y")],
        &InstalledDb::default(),
        vec![step("a", "b-1", PlanAction::Install), step("a-b", "1", PlanAction::Install)],
        &[vec![("bin/x", "one"), ("bin/z", "z")], vec![("bin/x", "two")]],
    );
    assert_eq!(files["pkgs/a-b-1/bin/x"], "two");
    assert_eq!(files["pkgs/a-b-1/y"], "y");
}

#[test]
fn links_go_with_their_package() {
    let man = "share/man/man1/foo.1";
    let db = InstalledDb::default();
    let files = undone_from_every_moment(
        &[],
        &db,
        vec![step("foo", "1.0", PlanAction::Install)],
        &[vec![(man, "page")]],
    );
    assert_eq!(files["pkgs/foo-1.0/share/man/man1/foo.1"], "page");
    assert_eq!(files[man], "-> pkgs/foo-1.0/share/man/man1/foo.1");
    let held: Vec<(&str, &str)> = files.iter().map(|(a, b)| (a.as_str(), b.as_str())).collect();
    let db = InstalledDb::from(vec![entry("foo", "1.0")]);
    let removed = undone_from_every_moment(
        &held,
        &db,
        vec![step("foo", "1.0", PlanAction::Remove)],
        &[vec![]],
    );
    assert!(removed.is_empty());
    let upgraded = undone_from_every_moment(
        &held,
        &db,
        vec![step("foo", "2.0", PlanAction::Upgrade)],
        &[vec![("bin/foo", "x")]],
    );
    assert!(!upgraded.contains_key(man));
}
