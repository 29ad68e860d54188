//! What a rollback undoes: the effect of a transaction on the files of a prefix.

use vstd::prelude::*;

use crate::lists;
use crate::paths;
use crate::resolver::plan::PlanStepView;
use crate::storage::installed;
use crate::storage::installed::InstalledEntryView;
use crate::storage::StoredView;
use crate::text;
use crate::text::Text;
use crate::transaction;
use crate::transaction::{
    EntryKind, RemovalAction, RollbackActionView, Staged, StepActionView, TreeAction, TreeEntryView,
};

verus! {

/// A file with its contents, or a link with what it resolves to, relative to the prefix.
pub enum Leaf {
    File(Seq<u8>),
    Link(Text),
}

/// What a link resolves to.
pub open spec fn target_of(leaf: Leaf) -> Option<Text> {
    match leaf {
        Leaf::File(_) => None,
        Leaf::Link(t) => Some(t),
    }
}

/// The files and links of a prefix by their paths, outside its staging and backup directories and
/// but for the database; the backups, each by the path that it was taken from; the package
/// directories that copying has begun to; what is stored of the database; the backup of the database,
/// if there is one; and whether the staging directory is there.
pub struct Disk {
    pub files: Map<Text, Leaf>,
    pub backup: Map<Text, Leaf>,
    pub dirs: Seq<Text>,
    pub database: StoredView<Seq<InstalledEntryView>>,
    pub saved_database: Option<StoredView<Seq<InstalledEntryView>>>,
    pub staging: bool,
}

/// One change to a prefix.
pub enum Change {
    /// Back up what stands at the path, if anything does that needs it.
    Backup(Text),
    /// Remove what stands at the path.
    Remove(Text),
    /// Begin to copy to the package directory.
    Begin(Text),
    /// Put a file or a link at the path.
    Write(Text, Leaf),
    /// Back up the database, or what stands in for it.
    SaveDatabase,
    /// Write the database.
    WriteDatabase(Seq<InstalledEntryView>),
    /// Remove the staging directory.
    RemoveStaging,
}

/// The prefix after a change. What is backed up already is not backed up again, nor what is part of
/// a package that copying has begun to.
pub open spec fn changed(d: Disk, c: Change) -> Disk {
    match c {
        Change::Backup(p) => if d.files.dom().contains(p) && !d.backup.dom().contains(p)
            && !transaction::belongs_to_any(d.dirs, p, target_of(d.files[p])) {
            Disk { backup: d.backup.insert(p, d.files[p]), ..d }
        } else {
            d
        },
        Change::Remove(p) => Disk { files: d.files.remove(p), ..d },
        Change::Begin(dir) => Disk { dirs: d.dirs.push(dir), ..d },
        Change::Write(p, leaf) => Disk { files: d.files.insert(p, leaf), ..d },
        Change::SaveDatabase => Disk {
            saved_database: Some(installed::saved(d.database)),
            ..d
        },
        Change::WriteDatabase(entries) => Disk { database: StoredView::Document(entries), ..d },
        Change::RemoveStaging => Disk { staging: false, ..d },
    }
}

/// The prefix after the changes, in order.
pub open spec fn after(d: Disk, changes: Seq<Change>) -> Disk
    decreases changes.len(),
{
    if changes.len() == 0 {
        d
    } else {
        changed(after(d, changes.drop_last()), changes.last())
    }
}

/// A prefix before its first change.
pub open spec fn fresh_disk(
    start: Map<Text, Leaf>,
    stored: StoredView<Seq<InstalledEntryView>>,
) -> Disk {
    Disk {
        files: start,
        backup: Map::empty(),
        dirs: Seq::empty(),
        database: stored,
        saved_database: None,
        staging: true,
    }
}

/// Whether something stands at the path that is part of a package in one of the directories.
pub open spec fn fresh(dirs: Seq<Text>, files: Map<Text, Leaf>, p: Text) -> bool {
    files.dom().contains(p) && transaction::belongs_to_any(dirs, p, target_of(files[p]))
}

/// The files after a rollback: the package directories and the links into them are deleted, and the
/// backups are put back.
pub open spec fn rolled_back(
    files: Map<Text, Leaf>,
    backup: Map<Text, Leaf>,
    dirs: Seq<Text>,
) -> Map<Text, Leaf> {
    Map::new(
        |p: Text|
            backup.dom().contains(p) || (files.dom().contains(p) && !fresh(dirs, files, p)),
        |p: Text|
            if backup.dom().contains(p) {
                backup[p]
            } else {
                files[p]
            },
    )
}

/// Whether the same stands at the path, or nothing.
pub open spec fn same_at(a: Map<Text, Leaf>, b: Map<Text, Leaf>, p: Text) -> bool {
    a.dom().contains(p) == b.dom().contains(p) && (a.dom().contains(p) ==> a[p] == b[p])
}

/// Whether what stood at the path at the start is backed up, if anything did.
pub open spec fn saved(start: Map<Text, Leaf>, d: Disk, p: Text) -> bool {
    start.dom().contains(p) ==> d.backup.dom().contains(p)
}

/// Whether a rollback gives back the files of `start`: a backup is what was there at the start; what
/// is not backed up is as it was, or new and deleted; and what is deleted is saved.
pub open spec fn undoable(start: Map<Text, Leaf>, d: Disk) -> bool {
    &&& forall|p: Text| #[trigger]
        d.backup.dom().contains(p) ==> start.dom().contains(p) && d.backup[p] == start[p]
    &&& forall|p: Text|
        !d.backup.dom().contains(p) ==> same_at(start, d.files, p) || (
        !#[trigger] start.dom().contains(p) && fresh(d.dirs, d.files, p))
    &&& forall|p: Text| #[trigger] fresh(d.dirs, d.files, p) ==> saved(start, d, p)
}

/// A rollback gives back every file and link as it was at the start.
pub proof fn lemma_rollback_restores(start: Map<Text, Leaf>, d: Disk)
    requires
        undoable(start, d),
    ensures
        rolled_back(d.files, d.backup, d.dirs) == start,
{
    let r = rolled_back(d.files, d.backup, d.dirs);
    assert forall|p: Text| #[trigger] r.dom().contains(p) == start.dom().contains(p) by {
        if !d.backup.dom().contains(p) {
            assert(same_at(start, d.files, p) || (!start.dom().contains(p) && fresh(
                d.dirs,
                d.files,
                p,
            )));
            if fresh(d.dirs, d.files, p) {
                assert(saved(start, d, p));
            }
        }
    }
    assert forall|p: Text| r.dom().contains(p) implies #[trigger] r[p] == start[p] by {
        assert(start.dom().contains(p));
        if !d.backup.dom().contains(p) {
            assert(same_at(start, d.files, p));
        }
    }
    assert(r =~= start);
}

/// Where nothing was changed there is nothing to undo.
pub proof fn lemma_nothing_to_undo(d: Disk)
    requires
        d.backup == Map::<Text, Leaf>::empty(),
        d.dirs == Seq::<Text>::empty(),
    ensures
        undoable(d.files, d),
{
    assert forall|p: Text| !d.backup.dom().contains(p) implies same_at(d.files, d.files, p) || (
    !#[trigger] d.files.dom().contains(p) && fresh(d.dirs, d.files, p)) by {
        assert(same_at(d.files, d.files, p));
    }
}

/// Whether the change keeps a prefix undoable: only what is saved is removed, overwritten, or comes
/// to be part of a new package, and only parts of new packages are written.
pub open spec fn careful(start: Map<Text, Leaf>, d: Disk, c: Change) -> bool {
    match c {
        Change::Backup(_) => true,
        Change::Remove(p) => saved(start, d, p),
        Change::Begin(dir) => forall|p: Text| #[trigger]
            d.files.dom().contains(p) && transaction::belongs(dir, p, target_of(d.files[p]))
                ==> saved(start, d, p),
        Change::Write(p, leaf) => saved(start, d, p) && transaction::belongs_to_any(
            d.dirs,
            p,
            target_of(leaf),
        ),
        Change::SaveDatabase => true,
        Change::WriteDatabase(_) => true,
        Change::RemoveStaging => true,
    }
}

/// A careful change keeps a prefix undoable.
pub proof fn lemma_careful_change(start: Map<Text, Leaf>, d: Disk, c: Change)
    requires
        undoable(start, d),
        careful(start, d, c),
    ensures
        undoable(start, changed(d, c)),
{
    let e = changed(d, c);
    assert forall|q: Text| #[trigger] e.backup.dom().contains(q) implies start.dom().contains(q)
        && e.backup[q] == start[q] by {
        if !d.backup.dom().contains(q) {
            assert(same_at(start, d.files, q) || (!start.dom().contains(q) && fresh(
                d.dirs,
                d.files,
                q,
            )));
        }
    }
    assert forall|q: Text| #[trigger] fresh(d.dirs, d.files, q) && c is Begin implies fresh(
        e.dirs,
        e.files,
        q,
    ) by {
        let i = choose|i: int|
            0 <= i < d.dirs.len() && transaction::belongs(
                #[trigger] d.dirs[i],
                q,
                target_of(d.files[q]),
            );
        assert(e.dirs[i] == d.dirs[i]);
    }
    assert forall|q: Text| !e.backup.dom().contains(q) implies same_at(start, e.files, q) || (
    !#[trigger] start.dom().contains(q) && fresh(e.dirs, e.files, q)) by {
        assert(!d.backup.dom().contains(q));
        assert(same_at(start, d.files, q) || (!start.dom().contains(q) && fresh(
            d.dirs,
            d.files,
            q,
        )));
        match c {
            Change::Remove(p) => {
                if q == p {
                    assert(same_at(start, e.files, q));
                }
            },
            Change::Write(p, leaf) => {
                if q == p {
                    assert(fresh(e.dirs, e.files, q));
                }
            },
            _ => {},
        }
    }
    assert forall|q: Text| #[trigger] fresh(e.dirs, e.files, q) implies saved(start, e, q) by {
        match c {
            Change::Begin(dir) => {
                let i = choose|i: int|
                    0 <= i < e.dirs.len() && transaction::belongs(
                        #[trigger] e.dirs[i],
                        q,
                        target_of(e.files[q]),
                    );
                if i < d.dirs.len() {
                    assert(d.dirs[i] == e.dirs[i]);
                    assert(fresh(d.dirs, d.files, q));
                } else {
                    assert(d.files.dom().contains(q));
                }
            },
            Change::Write(p, _) => {
                if q != p {
                    assert(fresh(d.dirs, d.files, q));
                }
            },
            _ => {
                assert(fresh(d.dirs, d.files, q));
            },
        }
    }
}

/// What a backup was taken of, where needed, is saved.
pub proof fn lemma_backup_saves(start: Map<Text, Leaf>, d: Disk, p: Text)
    requires
        undoable(start, d),
    ensures
        saved(start, changed(d, Change::Backup(p)), p),
{
    if start.dom().contains(p) && !d.backup.dom().contains(p) {
        assert(same_at(start, d.files, p));
        if transaction::belongs_to_any(d.dirs, p, target_of(d.files[p])) {
            assert(fresh(d.dirs, d.files, p));
        }
    }
}

/// Whether the prefix can be undone after each of the first changes, however many.
pub open spec fn always_undoable(start: Map<Text, Leaf>, d: Disk, changes: Seq<Change>) -> bool {
    forall|k: int|
        0 <= k <= changes.len() ==> undoable(start, #[trigger] after(d, changes.take(k)))
}

proof fn lemma_always_end(start: Map<Text, Leaf>, d: Disk, changes: Seq<Change>)
    requires
        always_undoable(start, d, changes),
    ensures
        undoable(start, after(d, changes)),
{
    assert(changes.take(changes.len() as int) =~= changes);
}

proof fn lemma_always_nothing(start: Map<Text, Leaf>, d: Disk)
    requires
        undoable(start, d),
    ensures
        always_undoable(start, d, Seq::empty()),
{
    let none = Seq::<Change>::empty();
    assert forall|k: int| 0 <= k <= none.len() implies undoable(
        start,
        #[trigger] after(d, none.take(k)),
    ) by {
        assert(none.take(k) =~= none);
    }
}

proof fn lemma_after_concat(d: Disk, a: Seq<Change>, b: Seq<Change>)
    ensures
        after(d, a + b) == after(after(d, a), b),
    decreases b.len(),
{
    if b.len() == 0 {
        assert(a + b =~= a);
    } else {
        assert((a + b).drop_last() =~= a + b.drop_last());
        assert((a + b).last() == b.last());
        lemma_after_concat(d, a, b.drop_last());
    }
}

proof fn lemma_always_concat(start: Map<Text, Leaf>, d: Disk, a: Seq<Change>, b: Seq<Change>)
    requires
        always_undoable(start, d, a),
        always_undoable(start, after(d, a), b),
    ensures
        always_undoable(start, d, a + b),
{
    assert forall|k: int| 0 <= k <= (a + b).len() implies undoable(
        start,
        #[trigger] after(d, (a + b).take(k)),
    ) by {
        if k <= a.len() {
            assert((a + b).take(k) =~= a.take(k));
        } else {
            assert((a + b).take(k) =~= a + b.take(k - a.len()));
            lemma_after_concat(d, a, b.take(k - a.len()));
        }
    }
}

/// A careful change by itself.
proof fn lemma_one(start: Map<Text, Leaf>, d: Disk, c: Change)
    requires
        undoable(start, d),
        careful(start, d, c),
    ensures
        always_undoable(start, d, seq![c]),
        after(d, seq![c]) == changed(d, c),
        undoable(start, changed(d, c)),
{
    let one = seq![c];
    lemma_careful_change(start, d, c);
    assert(one.drop_last() =~= Seq::empty());
    reveal_with_fuel(after, 2);
    assert(after(d, one) == changed(d, c));
    assert forall|k: int| 0 <= k <= one.len() implies undoable(
        start,
        #[trigger] after(d, one.take(k)),
    ) by {
        if k == 0 {
            assert(one.take(k) =~= Seq::empty());
        } else {
            assert(one.take(k) =~= one);
        }
    }
}

/// One more careful change at the end.
proof fn lemma_one_more(start: Map<Text, Leaf>, d: Disk, changes: Seq<Change>, c: Change)
    requires
        always_undoable(start, d, changes),
        careful(start, after(d, changes), c),
    ensures
        always_undoable(start, d, changes.push(c)),
        after(d, changes.push(c)) == changed(after(d, changes), c),
        undoable(start, after(d, changes.push(c))),
{
    lemma_always_end(start, d, changes);
    lemma_one(start, after(d, changes), c);
    assert(changes.push(c) =~= changes + seq![c]);
    lemma_always_concat(start, d, changes, seq![c]);
    assert(changes.push(c).drop_last() =~= changes);
}

/// No change takes a backup away.
proof fn lemma_saved_stays(start: Map<Text, Leaf>, d: Disk, changes: Seq<Change>, p: Text)
    requires
        saved(start, d, p),
    ensures
        saved(start, after(d, changes), p),
    decreases changes.len(),
{
    if changes.len() > 0 {
        lemma_saved_stays(start, d, changes.drop_last(), p);
    }
}

/// Backing up each of the paths.
pub open spec fn backups(paths: Seq<Text>) -> Seq<Change> {
    paths.map_values(|p: Text| Change::Backup(p))
}

/// Removing each of the paths.
pub open spec fn removals(paths: Seq<Text>) -> Seq<Change> {
    paths.map_values(|p: Text| Change::Remove(p))
}

/// Whether all the paths are saved.
pub open spec fn all_saved(start: Map<Text, Leaf>, d: Disk, paths: Seq<Text>) -> bool {
    forall|i: int| 0 <= i < paths.len() ==> saved(start, d, #[trigger] paths[i])
}

proof fn lemma_backups(start: Map<Text, Leaf>, d: Disk, paths: Seq<Text>)
    requires
        undoable(start, d),
    ensures
        always_undoable(start, d, backups(paths)),
        undoable(start, after(d, backups(paths))),
        after(d, backups(paths)).files == d.files,
        after(d, backups(paths)).dirs == d.dirs,
        all_saved(start, after(d, backups(paths)), paths),
    decreases paths.len(),
{
    let changes = backups(paths);
    if paths.len() == 0 {
        assert(changes =~= Seq::empty());
        lemma_always_nothing(start, d);
    } else {
        let front = paths.drop_last();
        let last = paths.last();
        lemma_backups(start, d, front);
        assert(changes =~= backups(front).push(Change::Backup(last)));
        let m = after(d, backups(front));
        lemma_one_more(start, d, backups(front), Change::Backup(last));
        lemma_backup_saves(start, m, last);
        let e = after(d, changes);
        assert forall|i: int| 0 <= i < paths.len() implies saved(start, e, #[trigger] paths[i]) by {
            if i < front.len() {
                assert(front[i] == paths[i]);
                assert(saved(start, m, front[i]));
            }
        }
    }
}

proof fn lemma_removals(start: Map<Text, Leaf>, d: Disk, paths: Seq<Text>)
    requires
        undoable(start, d),
        all_saved(start, d, paths),
    ensures
        always_undoable(start, d, removals(paths)),
        undoable(start, after(d, removals(paths))),
        after(d, removals(paths)).backup == d.backup,
        after(d, removals(paths)).dirs == d.dirs,
        forall|p: Text|
            paths.contains(p) ==> !#[trigger] after(d, removals(paths)).files.dom().contains(p),
        forall|p: Text|
            !paths.contains(p) ==> #[trigger] same_at(
                d.files,
                after(d, removals(paths)).files,
                p,
            ),
    decreases paths.len(),
{
    let changes = removals(paths);
    if paths.len() == 0 {
        assert(changes =~= Seq::empty());
        lemma_always_nothing(start, d);
    } else {
        let front = paths.drop_last();
        let last = paths.last();
        assert forall|i: int| 0 <= i < front.len() implies saved(start, d, #[trigger] front[i]) by {
            assert(front[i] == paths[i]);
        }
        lemma_removals(start, d, front);
        let m = after(d, removals(front));
        assert(changes =~= removals(front).push(Change::Remove(last)));
        assert(last == paths[paths.len() - 1]);
        lemma_one_more(start, d, removals(front), Change::Remove(last));
        let e = after(d, changes);
        assert forall|p: Text| paths.contains(p) implies !#[trigger] e.files.dom().contains(p) by {
            lists::lemma_last_contains(paths, p);
            if p != last {
                assert(!m.files.dom().contains(p));
            }
        }
        assert forall|p: Text| !paths.contains(p) implies #[trigger] same_at(
            d.files,
            e.files,
            p,
        ) by {
            lists::lemma_last_contains(paths, p);
            assert(same_at(d.files, m.files, p));
        }
    }
}

/// What was found of a package in the prefix: whether its directory is there, the files in it, and
/// among the links of the prefix those, by their positions, that point into it.
pub struct Standing {
    pub dir_exists: bool,
    pub files: Seq<Text>,
    pub positions: Seq<usize>,
    pub links: Seq<Text>,
}

/// Whether each position is that of a link, and there are no files without the directory.
pub open spec fn consistent(w: Standing) -> bool {
    &&& forall|i: int| 0 <= i < w.positions.len() ==> (#[trigger] w.positions[i]) < w.links.len()
    &&& !w.dir_exists ==> w.files.len() == 0
}

/// Whether the path is that of one of the files, or of one of the links.
pub open spec fn found(w: Standing, p: Text) -> bool {
    w.files.contains(p) || exists|i: int|
        0 <= i < w.positions.len() && w.links[#[trigger] w.positions[i] as int] == p
}

/// Whether all that stands in the prefix of the package in the directory was found.
pub open spec fn complete(w: Standing, files: Map<Text, Leaf>, dir: Text) -> bool {
    forall|p: Text| #[trigger]
        files.dom().contains(p) && transaction::belongs(dir, p, target_of(files[p])) ==> found(w, p)
}

/// The changes that an action on a package makes.
pub open spec fn action_changes(action: RemovalAction, w: Standing) -> Seq<Change> {
    match action {
        RemovalAction::BackupTree => backups(w.files),
        RemovalAction::BackupLink(i) => seq![Change::Backup(w.links[i as int])],
        RemovalAction::RemoveLink(i) => seq![Change::Remove(w.links[i as int])],
        RemovalAction::RemoveTree => removals(w.files),
    }
}

/// The changes that the actions on a package make, in order.
pub open spec fn trace(actions: Seq<RemovalAction>, w: Standing) -> Seq<Change>
    decreases actions.len(),
{
    if actions.len() == 0 {
        Seq::empty()
    } else {
        trace(actions.drop_last(), w) + action_changes(actions.last(), w)
    }
}

/// The changes that take a package away.
pub open spec fn removal_changes(w: Standing) -> Seq<Change> {
    trace(transaction::package_removal(w.dir_exists, w.positions), w)
}

/// The changes that back a package up.
pub open spec fn backup_changes(w: Standing) -> Seq<Change> {
    trace(transaction::package_backup(w.dir_exists, w.positions), w)
}

proof fn lemma_trace_concat(a: Seq<RemovalAction>, b: Seq<RemovalAction>, w: Standing)
    ensures
        trace(a + b, w) == trace(a, w) + trace(b, w),
    decreases b.len(),
{
    if b.len() == 0 {
        assert(a + b =~= a);
        assert(trace(a, w) + Seq::<Change>::empty() =~= trace(a, w));
    } else {
        assert((a + b).drop_last() =~= a + b.drop_last());
        assert((a + b).last() == b.last());
        lemma_trace_concat(a, b.drop_last(), w);
        assert(trace(a + b, w) =~= trace(a, w) + trace(b, w));
    }
}

proof fn lemma_trace_one(action: RemovalAction, w: Standing)
    ensures
        trace(seq![action], w) == action_changes(action, w),
{
    let one = seq![action];
    assert(one.drop_last() =~= Seq::empty());
    reveal_with_fuel(trace, 2);
    assert(trace(one, w) =~= action_changes(action, w));
}

proof fn lemma_trace_head(w: Standing)
    requires
        consistent(w),
    ensures
        trace(
            if w.dir_exists {
                seq![RemovalAction::BackupTree]
            } else {
                Seq::empty()
            },
            w,
        ) == backups(w.files),
{
    if w.dir_exists {
        lemma_trace_one(RemovalAction::BackupTree, w);
    } else {
        assert(backups(w.files) =~= Seq::empty());
    }
}

proof fn lemma_link_removals(start: Map<Text, Leaf>, d: Disk, positions: Seq<usize>, w: Standing)
    requires
        undoable(start, d),
    ensures
        ({
            let changes = trace(transaction::link_removals(positions), w);
            let e = after(d, changes);
            &&& always_undoable(start, d, changes)
            &&& undoable(start, e)
            &&& e.dirs == d.dirs
            &&& forall|p: Text|
                (forall|i: int|
                    0 <= i < positions.len() ==> w.links[#[trigger] positions[i] as int] != p)
                    ==> #[trigger] same_at(d.files, e.files, p)
            &&& forall|i: int|
                0 <= i < positions.len() ==> !e.files.dom().contains(
                    w.links[#[trigger] positions[i] as int],
                )
        }),
    decreases positions.len(),
{
    let actions = transaction::link_removals(positions);
    let changes = trace(actions, w);
    if positions.len() == 0 {
        lemma_always_nothing(start, d);
        assert(changes =~= Seq::empty());
    } else {
        let front = positions.drop_last();
        let last = positions.last();
        let path = w.links[last as int];
        lemma_link_removals(start, d, front, w);
        let before = trace(transaction::link_removals(front), w);
        let m = after(d, before);
        let two = seq![RemovalAction::BackupLink(last), RemovalAction::RemoveLink(last)];
        assert(actions =~= transaction::link_removals(front) + two);
        lemma_trace_concat(transaction::link_removals(front), two, w);
        assert(two =~= seq![two[0]] + seq![two[1]]);
        lemma_trace_concat(seq![two[0]], seq![two[1]], w);
        lemma_trace_one(two[0], w);
        lemma_trace_one(two[1], w);
        assert(changes =~= before.push(Change::Backup(path)).push(Change::Remove(path)));
        lemma_one_more(start, d, before, Change::Backup(path));
        lemma_backup_saves(start, m, path);
        lemma_one_more(start, d, before.push(Change::Backup(path)), Change::Remove(path));
        let e = after(d, changes);
        assert forall|p: Text|
            (forall|i: int|
                0 <= i < positions.len() ==> w.links[#[trigger] positions[i] as int]
                    != p) implies #[trigger] same_at(d.files, e.files, p) by {
            assert(w.links[positions[positions.len() - 1] as int] != p);
            assert forall|i: int| 0 <= i < front.len() implies w.links[#[trigger] front[i] as int]
                != p by {
                assert(front[i] == positions[i]);
            }
            assert(same_at(d.files, m.files, p));
        }
        assert forall|i: int| 0 <= i < positions.len() implies !e.files.dom().contains(
            w.links[#[trigger] positions[i] as int],
        ) by {
            if i < front.len() {
                assert(front[i] == positions[i]);
                assert(!m.files.dom().contains(w.links[front[i] as int]));
            }
        }
    }
}

/// Taking a package away keeps a prefix undoable at every moment. Afterwards what was found of it is
/// gone, and nothing else has changed.
pub proof fn lemma_removal_can_be_undone(start: Map<Text, Leaf>, d: Disk, w: Standing)
    requires
        undoable(start, d),
        consistent(w),
    ensures
        always_undoable(start, d, removal_changes(w)),
        undoable(start, after(d, removal_changes(w))),
        after(d, removal_changes(w)).dirs == d.dirs,
        forall|p: Text| #[trigger]
            found(w, p) ==> !after(d, removal_changes(w)).files.dom().contains(p),
        forall|p: Text|
            !found(w, p) ==> #[trigger] same_at(d.files, after(d, removal_changes(w)).files, p),
{
    let head = if w.dir_exists {
        seq![RemovalAction::BackupTree]
    } else {
        Seq::empty()
    };
    let middle = transaction::link_removals(w.positions);
    let tail = seq![RemovalAction::RemoveTree];
    assert(transaction::package_removal(w.dir_exists, w.positions) =~= head + middle + tail);
    let a = backups(w.files);
    let b = trace(middle, w);
    let c = removals(w.files);
    lemma_trace_head(w);
    lemma_trace_one(RemovalAction::RemoveTree, w);
    lemma_trace_concat(head + middle, tail, w);
    lemma_trace_concat(head, middle, w);
    let changes = removal_changes(w);
    assert(changes == a + b + c);
    lemma_backups(start, d, w.files);
    let x = after(d, a);
    lemma_link_removals(start, x, w.positions, w);
    let y = after(x, b);
    assert(all_saved(start, y, w.files)) by {
        assert forall|i: int| 0 <= i < w.files.len() implies saved(
            start,
            y,
            #[trigger] w.files[i],
        ) by {
            assert(saved(start, x, w.files[i]));
            lemma_saved_stays(start, x, b, w.files[i]);
        }
    }
    lemma_removals(start, y, w.files);
    lemma_always_concat(start, d, a, b);
    lemma_after_concat(d, a, b);
    lemma_always_concat(start, d, a + b, c);
    lemma_after_concat(d, a + b, c);
    let z = after(d, changes);
    assert(z == after(y, c));
    assert forall|p: Text| #[trigger] found(w, p) implies !z.files.dom().contains(p) by {
        if !w.files.contains(p) {
            let i = choose|i: int|
                0 <= i < w.positions.len() && w.links[#[trigger] w.positions[i] as int] == p;
            assert(!y.files.dom().contains(w.links[w.positions[i] as int]));
            assert(same_at(y.files, z.files, p));
        }
    }
    assert forall|p: Text| !found(w, p) implies #[trigger] same_at(d.files, z.files, p) by {
        assert(same_at(x.files, y.files, p));
        assert(same_at(y.files, z.files, p));
    }
}

/// The paths of the links at the positions.
spec fn link_paths(positions: Seq<usize>, links: Seq<Text>) -> Seq<Text> {
    positions.map_values(|i: usize| links[i as int])
}

proof fn lemma_link_backups(positions: Seq<usize>, w: Standing)
    ensures
        trace(positions.map_values(|i: usize| RemovalAction::BackupLink(i)), w) == backups(
            link_paths(positions, w.links),
        ),
    decreases positions.len(),
{
    let actions = positions.map_values(|i: usize| RemovalAction::BackupLink(i));
    let all = backups(link_paths(positions, w.links));
    if positions.len() == 0 {
        assert(all =~= Seq::empty());
    } else {
        let front = positions.drop_last();
        lemma_link_backups(front, w);
        assert(actions.drop_last() =~= front.map_values(
            |i: usize| RemovalAction::BackupLink(i),
        ));
        assert(all =~= backups(link_paths(front, w.links)) + seq![
            Change::Backup(w.links[positions.last() as int]),
        ]);
    }
}

/// Backing a package up keeps a prefix undoable at every moment. Afterwards what was found of it is
/// saved, and nothing has changed.
pub proof fn lemma_backup_can_be_undone(start: Map<Text, Leaf>, d: Disk, w: Standing)
    requires
        undoable(start, d),
        consistent(w),
    ensures
        always_undoable(start, d, backup_changes(w)),
        undoable(start, after(d, backup_changes(w))),
        after(d, backup_changes(w)).dirs == d.dirs,
        after(d, backup_changes(w)).files == d.files,
        forall|p: Text| #[trigger] found(w, p) ==> saved(start, after(d, backup_changes(w)), p),
{
    let head = if w.dir_exists {
        seq![RemovalAction::BackupTree]
    } else {
        Seq::empty()
    };
    let tail = w.positions.map_values(|i: usize| RemovalAction::BackupLink(i));
    let paths = link_paths(w.positions, w.links);
    let a = backups(w.files);
    let b = backups(paths);
    lemma_trace_head(w);
    lemma_link_backups(w.positions, w);
    lemma_trace_concat(head, tail, w);
    assert(backup_changes(w) == a + b);
    lemma_backups(start, d, w.files);
    let x = after(d, a);
    lemma_backups(start, x, paths);
    lemma_always_concat(start, d, a, b);
    lemma_after_concat(d, a, b);
    let e = after(d, a + b);
    assert forall|p: Text| #[trigger] found(w, p) implies saved(start, e, p) by {
        if w.files.contains(p) {
            let i = choose|i: int| 0 <= i < w.files.len() && w.files[i] == p;
            assert(saved(start, x, w.files[i]));
            lemma_saved_stays(start, x, b, p);
        } else {
            let i = choose|i: int|
                0 <= i < w.positions.len() && w.links[#[trigger] w.positions[i] as int] == p;
            assert(paths[i] == p);
        }
    }
}

/// The changes of copying a package, or making links: whatever stands at a path is backed up, then
/// the file or link is put there.
pub open spec fn copy_changes(copies: Seq<(Text, Leaf)>) -> Seq<Change>
    decreases copies.len(),
{
    if copies.len() == 0 {
        Seq::empty()
    } else {
        copy_changes(copies.drop_last()).push(Change::Backup(copies.last().0)).push(
            Change::Write(copies.last().0, copies.last().1),
        )
    }
}

/// Whether all the copies are parts of packages in the directories.
pub open spec fn all_belong(dirs: Seq<Text>, copies: Seq<(Text, Leaf)>) -> bool {
    forall|i: int|
        0 <= i < copies.len() ==> transaction::belongs_to_any(
            dirs,
            (#[trigger] copies[i]).0,
            target_of(copies[i].1),
        )
}

/// Copying a package, whatever it overwrites, keeps a prefix undoable at every moment.
pub proof fn lemma_copy_can_be_undone(start: Map<Text, Leaf>, d: Disk, copies: Seq<(Text, Leaf)>)
    requires
        undoable(start, d),
        all_belong(d.dirs, copies),
    ensures
        always_undoable(start, d, copy_changes(copies)),
        undoable(start, after(d, copy_changes(copies))),
        after(d, copy_changes(copies)).dirs == d.dirs,
    decreases copies.len(),
{
    let changes = copy_changes(copies);
    if copies.len() == 0 {
        lemma_always_nothing(start, d);
        assert(changes =~= Seq::empty());
    } else {
        let front = copies.drop_last();
        let (path, leaf) = copies.last();
        assert(copies[copies.len() - 1] == (path, leaf));
        assert forall|i: int| 0 <= i < front.len() implies transaction::belongs_to_any(
            d.dirs,
            (#[trigger] front[i]).0,
            target_of(front[i].1),
        ) by {
            assert(front[i] == copies[i]);
        }
        lemma_copy_can_be_undone(start, d, front);
        let before = copy_changes(front);
        let m = after(d, before);
        lemma_one_more(start, d, before, Change::Backup(path));
        lemma_backup_saves(start, m, path);
        lemma_one_more(start, d, before.push(Change::Backup(path)), Change::Write(path, leaf));
    }
}

/// The changes of the actions of copying a tree, where `at` gives for each entry of the tree the
/// path that it goes to and what is put there.
pub open spec fn copy_trace(actions: Seq<TreeAction>, at: Seq<(Text, Leaf)>) -> Seq<Change>
    decreases actions.len(),
{
    if actions.len() == 0 {
        Seq::empty()
    } else {
        let front = copy_trace(actions.drop_last(), at);
        match actions.last() {
            TreeAction::MakeDirectory(_) => front,
            TreeAction::CopyFile(i) | TreeAction::CopyLink(i) => front.push(
                Change::Backup(at[i as int].0),
            ).push(Change::Write(at[i as int].0, at[i as int].1)),
        }
    }
}

/// What the actions of copying a tree put in place.
pub open spec fn copies_of(actions: Seq<TreeAction>, at: Seq<(Text, Leaf)>) -> Seq<(Text, Leaf)>
    decreases actions.len(),
{
    if actions.len() == 0 {
        Seq::empty()
    } else {
        let front = copies_of(actions.drop_last(), at);
        match actions.last() {
            TreeAction::MakeDirectory(_) => front,
            TreeAction::CopyFile(i) | TreeAction::CopyLink(i) => front.push(at[i as int]),
        }
    }
}

proof fn lemma_copy_trace(actions: Seq<TreeAction>, at: Seq<(Text, Leaf)>)
    ensures
        copy_trace(actions, at) == copy_changes(copies_of(actions, at)),
    decreases actions.len(),
{
    if actions.len() > 0 {
        let front = copies_of(actions.drop_last(), at);
        lemma_copy_trace(actions.drop_last(), at);
        match actions.last() {
            TreeAction::MakeDirectory(_) => {},
            TreeAction::CopyFile(i) | TreeAction::CopyLink(i) => {
                assert(front.push(at[i as int]).drop_last() =~= front);
            },
        }
    }
}

/// A package that is copied to the prefix: the directory that it goes to, what was found there
/// before, and the entries of the staged tree with what they hold.
pub struct Arrival {
    pub dir: Text,
    pub standing: Standing,
    pub entries: Seq<TreeEntryView>,
    pub leaves: Seq<Leaf>,
}

/// Where each entry of the tree goes, and what is put there.
pub open spec fn placed(a: Arrival) -> Seq<(Text, Leaf)> {
    Seq::new(
        a.entries.len(),
        |i: int| ("pkgs/"@ + a.dir + "/"@ + a.entries[i].path, a.leaves[i]),
    )
}

/// The links of the package, each with what it resolves to.
pub open spec fn new_links(a: Arrival) -> Seq<(Text, Leaf)> {
    match transaction::relative_files(a.entries) {
        Ok(files) => transaction::package_links(a.dir, files).map_values(
            |link: (Text, Text)| (link.0, Leaf::Link(link.1)),
        ),
        Err(_) => Seq::empty(),
    }
}

/// The changes that put a package in place: its files, then its links.
pub open spec fn arrival_writes(a: Arrival) -> Seq<Change> {
    copy_trace(transaction::copied_tree(a.entries).0, placed(a)) + copy_changes(new_links(a))
}

/// All changes of copying a package to the prefix.
pub open spec fn arrival_changes(a: Arrival) -> Seq<Change> {
    backup_changes(a.standing).push(Change::Begin(a.dir)) + arrival_writes(a)
}

proof fn lemma_copies_placed(entries: Seq<TreeEntryView>, at: Seq<(Text, Leaf)>)
    requires
        entries.len() <= at.len(),
        entries.len() <= usize::MAX,
    ensures
        forall|k: int|
            0 <= k < copies_of(transaction::copied_tree(entries).0, at).len() ==> at.contains(
                #[trigger] copies_of(transaction::copied_tree(entries).0, at)[k],
            ),
    decreases entries.len(),
{
    let actions = transaction::copied_tree(entries).0;
    if entries.len() > 0 {
        let d = entries.drop_last();
        lemma_copies_placed(d, at);
        let front = transaction::copied_tree(d).0;
        if !transaction::copied_tree(d).1 {
            let i = (entries.len() - 1) as usize;
            let before = copies_of(front, at);
            let all = copies_of(actions, at);
            assert(actions == front.push(transaction::tree_action(entries.last().kind, i)));
            assert(actions.drop_last() =~= front);
            assert(at.contains(at[i as int]));
            assert(all == before || all == before.push(at[i as int]));
            assert forall|k: int| 0 <= k < all.len() implies at.contains(#[trigger] all[k]) by {
                if k < before.len() {
                    assert(all[k] == before[k]);
                }
            }
        }
    }
}

proof fn lemma_arrival_belongs(a: Arrival, dirs: Seq<Text>)
    requires
        a.entries.len() == a.leaves.len(),
        a.entries.len() <= usize::MAX,
        dirs.contains(a.dir),
    ensures
        all_belong(dirs, copies_of(transaction::copied_tree(a.entries).0, placed(a))),
        all_belong(dirs, new_links(a)),
{
    let base = "pkgs/"@ + a.dir;
    let n = choose|n: int| 0 <= n < dirs.len() && dirs[n] == a.dir;
    reveal_strlit("pkgs/");
    let at = placed(a);
    let copies = copies_of(transaction::copied_tree(a.entries).0, at);
    lemma_copies_placed(a.entries, at);
    assert forall|k: int| 0 <= k < copies.len() implies transaction::belongs_to_any(
        dirs,
        (#[trigger] copies[k]).0,
        target_of(copies[k].1),
    ) by {
        assert(at.contains(copies[k]));
        let i = choose|i: int| 0 <= i < at.len() && at[i] == copies[k];
        paths::lemma_below(base, a.entries[i].path);
        assert(transaction::belongs(dirs[n], copies[k].0, target_of(copies[k].1)));
    }
    let links = new_links(a);
    assert forall|k: int| 0 <= k < links.len() implies transaction::belongs_to_any(
        dirs,
        (#[trigger] links[k]).0,
        target_of(links[k].1),
    ) by {
        let files = transaction::relative_files(a.entries)->Ok_0;
        let chosen = files.filter(transaction::linked());
        lists::lemma_filter(files, transaction::linked());
        assert(chosen.contains(chosen[k]));
        paths::lemma_below(base, chosen[k]);
        assert(transaction::belongs(dirs[n], links[k].0, target_of(links[k].1)));
    }
}

/// What a plan step does to the files of a prefix: it may take a package away, and may copy one.
pub struct Work {
    pub old: Option<Standing>,
    pub new: Option<Arrival>,
}

/// The changes that take the old package away.
pub open spec fn old_changes(w: Work) -> Seq<Change> {
    match w.old {
        Some(old) => removal_changes(old),
        None => Seq::empty(),
    }
}

/// The changes that copy the new package.
pub open spec fn new_changes(w: Work) -> Seq<Change> {
    match w.new {
        Some(new) => arrival_changes(new),
        None => Seq::empty(),
    }
}

/// All changes of a step.
pub open spec fn work_changes(w: Work) -> Seq<Change> {
    old_changes(w) + new_changes(w)
}

/// All changes of the steps.
pub open spec fn all_changes(works: Seq<Work>) -> Seq<Change>
    decreases works.len(),
{
    if works.len() == 0 {
        Seq::empty()
    } else {
        all_changes(works.drop_last()) + work_changes(works.last())
    }
}

/// Whether the step found what stands in the prefix: before it copies a package, all that stands of
/// the package in that directory.
pub open spec fn observed(w: Work, d: Disk) -> bool {
    &&& w.old matches Some(old) ==> consistent(old)
    &&& w.new matches Some(new) ==> consistent(new.standing) && complete(
        new.standing,
        after(d, old_changes(w)).files,
        new.dir,
    ) && new.entries.len() == new.leaves.len() && new.entries.len() <= usize::MAX
}

/// Whether every step found what stands in the prefix when it begins, where `d` is the prefix before
/// the first step.
pub open spec fn all_observed(d: Disk, works: Seq<Work>) -> bool {
    forall|i: int|
        0 <= i < works.len() ==> observed(
            #[trigger] works[i],
            after(d, all_changes(works.take(i))),
        )
}

/// A step keeps a prefix undoable at every moment, whatever it removes and overwrites.
pub proof fn lemma_work_can_be_undone(start: Map<Text, Leaf>, d: Disk, w: Work)
    requires
        undoable(start, d),
        observed(w, d),
    ensures
        always_undoable(start, d, work_changes(w)),
        undoable(start, after(d, work_changes(w))),
{
    let a = old_changes(w);
    let b = new_changes(w);
    match w.old {
        Some(old) => {
            lemma_removal_can_be_undone(start, d, old);
        },
        None => {
            lemma_always_nothing(start, d);
        },
    }
    let m = after(d, a);
    match w.new {
        Some(new) => {
            let keep = backup_changes(new.standing);
            lemma_backup_can_be_undone(start, m, new.standing);
            let x = after(m, keep);
            let begin = Change::Begin(new.dir);
            assert forall|p: Text| #[trigger]
                x.files.dom().contains(p) && transaction::belongs(
                    new.dir,
                    p,
                    target_of(x.files[p]),
                ) implies saved(start, x, p) by {
                assert(m.files.dom().contains(p));
                assert(found(new.standing, p));
            }
            lemma_one_more(start, m, keep, begin);
            let y = after(m, keep.push(begin));
            lists::lemma_push_contains(x.dirs, new.dir, new.dir);
            lemma_arrival_belongs(new, y.dirs);
            let copies = copies_of(transaction::copied_tree(new.entries).0, placed(new));
            lemma_copy_trace(transaction::copied_tree(new.entries).0, placed(new));
            lemma_copy_can_be_undone(start, y, copies);
            let z = after(y, copy_changes(copies));
            lemma_copy_can_be_undone(start, z, new_links(new));
            lemma_always_concat(start, y, copy_changes(copies), copy_changes(new_links(new)));
            lemma_after_concat(y, copy_changes(copies), copy_changes(new_links(new)));
            lemma_always_concat(start, m, keep.push(begin), arrival_writes(new));
            lemma_after_concat(m, keep.push(begin), arrival_writes(new));
        },
        None => {
            lemma_always_nothing(start, m);
        },
    }
    lemma_always_concat(start, d, a, b);
    lemma_after_concat(d, a, b);
}

/// The steps keep a prefix undoable at every moment.
proof fn lemma_works(start: Map<Text, Leaf>, d: Disk, works: Seq<Work>, n: nat)
    requires
        undoable(start, d),
        all_observed(d, works),
        n <= works.len(),
    ensures
        always_undoable(start, d, all_changes(works.take(n as int))),
        undoable(start, after(d, all_changes(works.take(n as int)))),
    decreases n,
{
    if n == 0 {
        lemma_always_nothing(start, d);
        assert(works.take(0) =~= Seq::empty());
    } else {
        let m = (n - 1) as nat;
        lemma_works(start, d, works, m);
        let front = works.take(m as int);
        let w = works[m as int];
        assert(works.take(n as int).drop_last() =~= front);
        assert(works.take(n as int).last() == w);
        assert(observed(works[m as int], after(d, all_changes(front))));
        lemma_work_can_be_undone(start, after(d, all_changes(front)), w);
        lemma_always_concat(start, d, all_changes(front), work_changes(w));
        lemma_after_concat(d, all_changes(front), work_changes(w));
    }
}

/// The package directories that the changes begin to copy to.
spec fn begun(changes: Seq<Change>) -> Seq<Text>
    decreases changes.len(),
{
    if changes.len() == 0 {
        Seq::empty()
    } else {
        match changes.last() {
            Change::Begin(dir) => begun(changes.drop_last()).push(dir),
            _ => begun(changes.drop_last()),
        }
    }
}

/// Whether none of the changes begins to copy a package.
spec fn quiet(changes: Seq<Change>) -> bool {
    forall|i: int| 0 <= i < changes.len() ==> !((#[trigger] changes[i]) is Begin)
}

proof fn lemma_dirs(d: Disk, changes: Seq<Change>)
    ensures
        after(d, changes).dirs == d.dirs + begun(changes),
    decreases changes.len(),
{
    if changes.len() == 0 {
        assert(d.dirs + Seq::<Text>::empty() =~= d.dirs);
    } else {
        lemma_dirs(d, changes.drop_last());
        assert(after(d, changes).dirs =~= d.dirs + begun(changes));
    }
}

proof fn lemma_begun_concat(a: Seq<Change>, b: Seq<Change>)
    ensures
        begun(a + b) == begun(a) + begun(b),
    decreases b.len(),
{
    if b.len() == 0 {
        assert(a + b =~= a);
        assert(begun(a) + begun(b) =~= begun(a));
    } else {
        assert((a + b).drop_last() =~= a + b.drop_last());
        assert((a + b).last() == b.last());
        lemma_begun_concat(a, b.drop_last());
        assert(begun(a + b) =~= begun(a) + begun(b));
    }
}

proof fn lemma_quiet(changes: Seq<Change>)
    requires
        quiet(changes),
    ensures
        begun(changes) == Seq::<Text>::empty(),
    decreases changes.len(),
{
    if changes.len() > 0 {
        let d = changes.drop_last();
        assert forall|i: int| 0 <= i < d.len() implies !((#[trigger] d[i]) is Begin) by {
            assert(d[i] == changes[i]);
        }
        lemma_quiet(d);
        assert(changes.last() == changes[changes.len() - 1]);
    }
}

proof fn lemma_quiet_concat(a: Seq<Change>, b: Seq<Change>)
    requires
        quiet(a),
        quiet(b),
    ensures
        quiet(a + b),
{
    assert forall|i: int| 0 <= i < (a + b).len() implies !((#[trigger] (a + b)[i]) is Begin) by {
        if i < a.len() {
            assert((a + b)[i] == a[i]);
        } else {
            assert((a + b)[i] == b[i - a.len()]);
        }
    }
}

proof fn lemma_trace_quiet(actions: Seq<RemovalAction>, w: Standing)
    ensures
        quiet(trace(actions, w)),
    decreases actions.len(),
{
    if actions.len() > 0 {
        lemma_trace_quiet(actions.drop_last(), w);
        assert(quiet(action_changes(actions.last(), w)));
        lemma_quiet_concat(trace(actions.drop_last(), w), action_changes(actions.last(), w));
    }
}

proof fn lemma_copies_quiet(copies: Seq<(Text, Leaf)>)
    ensures
        quiet(copy_changes(copies)),
    decreases copies.len(),
{
    if copies.len() > 0 {
        let front = copy_changes(copies.drop_last());
        lemma_copies_quiet(copies.drop_last());
        let two = seq![
            Change::Backup(copies.last().0),
            Change::Write(copies.last().0, copies.last().1),
        ];
        assert(quiet(two));
        lemma_quiet_concat(front, two);
        assert(copy_changes(copies) =~= front + two);
    }
}

proof fn lemma_prefix_quiet(changes: Seq<Change>, k: int)
    requires
        quiet(changes),
        0 <= k <= changes.len(),
    ensures
        quiet(changes.take(k)),
{
    assert forall|i: int| 0 <= i < changes.take(k).len() implies !((#[trigger] changes.take(
        k,
    )[i]) is Begin) by {
        assert(changes.take(k)[i] == changes[i]);
    }
}

/// Whether a step has begun to copy its package after the first `k` of its changes.
pub open spec fn has_begun(w: Work, k: int) -> bool {
    w.new matches Some(new) && k > old_changes(w).len() + backup_changes(new.standing).len()
}

proof fn lemma_work_begun(w: Work, k: int)
    requires
        0 <= k <= work_changes(w).len(),
    ensures
        begun(work_changes(w).take(k)) == if has_begun(w, k) {
            seq![w.new->0.dir]
        } else {
            Seq::empty()
        },
{
    let a = old_changes(w);
    if let Some(old) = w.old {
        lemma_trace_quiet(transaction::package_removal(old.dir_exists, old.positions), old);
    }
    assert(quiet(a));
    match w.new {
        Some(new) => {
            let keep = backup_changes(new.standing);
            let begin = seq![Change::Begin(new.dir)];
            let writes = arrival_writes(new);
            lemma_trace_quiet(
                transaction::package_backup(new.standing.dir_exists, new.standing.positions),
                new.standing,
            );
            lemma_copy_trace(transaction::copied_tree(new.entries).0, placed(new));
            lemma_copies_quiet(copies_of(transaction::copied_tree(new.entries).0, placed(new)));
            lemma_copies_quiet(new_links(new));
            lemma_quiet_concat(
                copy_changes(copies_of(transaction::copied_tree(new.entries).0, placed(new))),
                copy_changes(new_links(new)),
            );
            lemma_quiet_concat(a, keep);
            let quiet_part = a + keep;
            assert(work_changes(w) =~= quiet_part + begin + writes);
            if k <= quiet_part.len() {
                assert(work_changes(w).take(k) =~= quiet_part.take(k));
                lemma_prefix_quiet(quiet_part, k);
                lemma_quiet(quiet_part.take(k));
            } else {
                let j = k - quiet_part.len() - 1;
                assert(work_changes(w).take(k) =~= quiet_part + begin + writes.take(j));
                lemma_prefix_quiet(writes, j);
                lemma_quiet(writes.take(j));
                lemma_quiet(quiet_part);
                lemma_begun_concat(quiet_part + begin, writes.take(j));
                lemma_begun_concat(quiet_part, begin);
                assert(begin.drop_last() =~= Seq::empty());
                reveal_with_fuel(begun, 2);
                assert(begun(work_changes(w).take(k)) =~= seq![new.dir]);
            }
        },
        None => {
            assert(work_changes(w) =~= a);
            lemma_prefix_quiet(a, k);
            lemma_quiet(a.take(k));
        },
    }
}

/// Whether the work is that of the actions of a step: it takes a package away if the step does, and
/// copies one to the same directory if the step does.
pub open spec fn follows(w: Work, actions: Seq<StepActionView>) -> bool {
    &&& w.old is Some == (actions.len() > 0 && actions[0] is RemovePackage)
    &&& match w.new {
        Some(new) => actions.len() > 0 && actions.last() == StepActionView::CopyPackage {
            dir_name: new.dir,
        },
        None => actions.len() == 0 || !(actions.last() is CopyPackage),
    }
}

/// Whether each work is that of a step of the plan.
pub open spec fn all_follow(
    works: Seq<Work>,
    steps: Seq<PlanStepView>,
    current: Seq<InstalledEntryView>,
    staged: Seq<Staged>,
) -> bool {
    &&& works.len() == steps.len()
    &&& forall|i: int|
        0 <= i < works.len() ==> follows(
            #[trigger] works[i],
            transaction::step_actions(steps[i], current, staged[i]).0,
        )
}

/// For each step, whether copying its package has begun after the first `k` changes of the steps.
pub open spec fn copied_by(works: Seq<Work>, k: int) -> Seq<bool> {
    Seq::new(
        works.len(),
        |i: int| has_begun(works[i], k - all_changes(works.take(i)).len()),
    )
}

/// A step copies to the directory of its package.
proof fn lemma_step_dir(
    w: Work,
    step: PlanStepView,
    current: Seq<InstalledEntryView>,
    staged: Staged,
)
    requires
        follows(w, transaction::step_actions(step, current, staged).0),
    ensures
        w.new matches Some(new) ==> new.dir == transaction::dir_of(step.name, step.version),
{
    let actions = transaction::step_actions(step, current, staged).0;
    if let Some(new) = w.new {
        assert(actions.last() == StepActionView::CopyPackage { dir_name: new.dir });
    }
}

/// The directories that copying has begun to are those that a rollback deletes.
proof fn lemma_begun(
    works: Seq<Work>,
    steps: Seq<PlanStepView>,
    current: Seq<InstalledEntryView>,
    staged: Seq<Staged>,
    k: int,
    n: int,
)
    requires
        all_follow(works, steps, current, staged),
        0 <= n <= works.len(),
        0 <= k,
    ensures
        begun(first(all_changes(works.take(n)), k)) == transaction::rollback_dirs(
            steps.take(n),
            copied_by(works, k),
        ),
    decreases n,
{
    if n == 0 {
        assert(works.take(0) =~= Seq::empty());
        assert(first(all_changes(works.take(n)), k) =~= Seq::empty());
    } else {
        let m = n - 1;
        let w = works[m];
        let front = all_changes(works.take(m));
        let last = work_changes(w);
        lemma_begun(works, steps, current, staged, k, m);
        assert(works.take(n).drop_last() =~= works.take(m));
        assert(works.take(n).last() == w);
        assert(steps.take(n).drop_last() =~= steps.take(m));
        assert(follows(works[m], transaction::step_actions(steps[m], current, staged[m]).0));
        lemma_step_dir(w, steps[m], current, staged[m]);
        assert(copied_by(works, k)[m] == has_begun(w, k - front.len()));
        let all = front + last;
        if k <= front.len() {
            assert(first(all, k) =~= first(front, k));
        } else {
            let rest: int = if k - front.len() <= last.len() {
                k - front.len()
            } else {
                last.len() as int
            };
            assert(first(front, k) =~= front);
            assert(first(all, k) =~= front + last.take(rest));
            lemma_begun_concat(front, last.take(rest));
            lemma_work_begun(w, rest);
            lemma_all_begun(w);
            assert(has_begun(w, rest) == has_begun(w, k - front.len()));
        }
        assert(begun(first(all, k)) =~= transaction::rollback_dirs(
            steps.take(n),
            copied_by(works, k),
        ));
    }
}

/// A step that copies a package has begun to after all its changes.
proof fn lemma_all_begun(w: Work)
    ensures
        has_begun(w, work_changes(w).len() as int) == w.new is Some,
{
}

/// The first `k` changes, or all where there are fewer.
pub open spec fn first(changes: Seq<Change>, k: int) -> Seq<Change> {
    if k <= changes.len() {
        changes.take(k)
    } else {
        changes
    }
}

/// The changes of a commit, in order: the database is backed up, the steps are applied, the new
/// database is written, and the staging directory is removed.
pub open spec fn commit_changes(works: Seq<Work>, entries: Seq<InstalledEntryView>) -> Seq<Change> {
    seq![Change::SaveDatabase] + all_changes(works) + seq![
        Change::WriteDatabase(entries),
        Change::RemoveStaging,
    ]
}

/// The prefix after an action of a rollback.
pub open spec fn restored(d: Disk, a: RollbackActionView) -> Disk {
    match a {
        RollbackActionView::DeletePackage { dir_name } => Disk {
            files: Map::new(
                |p: Text|
                    d.files.dom().contains(p) && !transaction::belongs(
                        dir_name,
                        p,
                        target_of(d.files[p]),
                    ),
                |p: Text| d.files[p],
            ),
            ..d
        },
        RollbackActionView::RestoreDatabase => match d.saved_database {
            Some(stored) => Disk { database: stored, ..d },
            None => d,
        },
        RollbackActionView::RestoreBackups => Disk {
            files: d.files.union_prefer_right(d.backup),
            ..d
        },
        RollbackActionView::RemoveBackups => Disk { backup: Map::empty(), ..d },
        RollbackActionView::RemoveStaging => Disk { staging: false, ..d },
    }
}

/// The prefix after the actions of a rollback, in order.
pub open spec fn after_rollback(d: Disk, actions: Seq<RollbackActionView>) -> Disk
    decreases actions.len(),
{
    if actions.len() == 0 {
        d
    } else {
        restored(after_rollback(d, actions.drop_last()), actions.last())
    }
}

/// Deleting packages takes their files and links away, and changes nothing else.
proof fn lemma_deletions(d: Disk, dirs: Seq<Text>)
    ensures
        ({
            let e = after_rollback(d, transaction::deletions(dirs));
            &&& e == Disk { files: e.files, ..d }
            &&& forall|p: Text| #[trigger]
                e.files.dom().contains(p) == (d.files.dom().contains(p) && !fresh(
                    dirs,
                    d.files,
                    p,
                ))
            &&& forall|p: Text| #[trigger] e.files.dom().contains(p) ==> e.files[p] == d.files[p]
        }),
    decreases dirs.len(),
{
    let actions = transaction::deletions(dirs);
    let e = after_rollback(d, actions);
    if dirs.len() == 0 {
        assert(actions =~= Seq::empty());
    } else {
        let front = dirs.drop_last();
        lemma_deletions(d, front);
        assert(actions.drop_last() =~= transaction::deletions(front));
        let m = after_rollback(d, transaction::deletions(front));
        assert(actions.last() == RollbackActionView::DeletePackage { dir_name: dirs.last() });
        assert forall|p: Text| #[trigger] e.files.dom().contains(p) == (d.files.dom().contains(p)
            && !fresh(dirs, d.files, p)) by {
            if d.files.dom().contains(p) {
                let t = target_of(d.files[p]);
                assert(m.files.dom().contains(p) == !fresh(front, d.files, p));
                if transaction::belongs_to_any(front, p, t) {
                    let i = choose|i: int|
                        0 <= i < front.len() && transaction::belongs(#[trigger] front[i], p, t);
                    assert(dirs[i] == front[i]);
                }
                if transaction::belongs_to_any(dirs, p, t) && !transaction::belongs(
                    dirs.last(),
                    p,
                    t,
                ) {
                    let i = choose|i: int|
                        0 <= i < dirs.len() && transaction::belongs(#[trigger] dirs[i], p, t);
                    assert(front[i] == dirs[i]);
                }
                if transaction::belongs(dirs.last(), p, t) {
                    assert(dirs[dirs.len() - 1] == dirs.last());
                }
            }
        }
    }
}

/// What a rollback makes of a prefix.
proof fn lemma_after_rollback(
    d: Disk,
    steps: Seq<PlanStepView>,
    copied: Seq<bool>,
)
    ensures
        ({
            let saved = d.saved_database is Some;
            let end = after_rollback(d, transaction::rollback_actions(steps, copied, saved));
            &&& end.files == rolled_back(
                d.files,
                d.backup,
                transaction::rollback_dirs(steps, copied),
            )
            &&& end.database == match d.saved_database {
                Some(stored) => stored,
                None => d.database,
            }
            &&& end.backup == Map::<Text, Leaf>::empty()
            &&& !end.staging
        }),
{
    let saved = d.saved_database is Some;
    let dirs = transaction::rollback_dirs(steps, copied);
    let actions = transaction::rollback_actions(steps, copied, saved);
    let head = transaction::deletions(dirs);
    lemma_deletions(d, dirs);
    let m = after_rollback(d, head);
    let one = if saved {
        head.push(RollbackActionView::RestoreDatabase)
    } else {
        head
    };
    assert(one.drop_last() =~= head || !saved);
    let x = after_rollback(d, one);
    let two = one.push(RollbackActionView::RestoreBackups);
    let three = two.push(RollbackActionView::RemoveBackups);
    let four = three.push(RollbackActionView::RemoveStaging);
    assert(actions =~= four);
    assert(four.drop_last() =~= three);
    assert(three.drop_last() =~= two);
    assert(two.drop_last() =~= one);
    assert(after_rollback(d, two) == restored(x, RollbackActionView::RestoreBackups));
    assert(after_rollback(d, three) == restored(
        after_rollback(d, two),
        RollbackActionView::RemoveBackups,
    ));
    assert(after_rollback(d, four) == restored(
        after_rollback(d, three),
        RollbackActionView::RemoveStaging,
    ));
    assert(x.files == m.files && x.backup == d.backup);
    assert(after_rollback(d, four).files =~= rolled_back(d.files, d.backup, dirs));
}

/// The steps leave the database, its backup and the staging directory alone.
proof fn lemma_database_untouched(d: Disk, works: Seq<Work>, k: int)
    requires
        0 <= k <= all_changes(works).len(),
    ensures
        after(d, all_changes(works).take(k)).database == d.database,
        after(d, all_changes(works).take(k)).saved_database == d.saved_database,
{
    lemma_all_of_files(works);
    lemma_of_files(d, all_changes(works), k);
}

/// Whether the changes are to files and links alone.
spec fn of_files(changes: Seq<Change>) -> bool {
    forall|i: int|
        0 <= i < changes.len() ==> !((#[trigger] changes[i]) is SaveDatabase) && !(changes[i]
            is WriteDatabase) && !(changes[i] is RemoveStaging)
}

proof fn lemma_of_files(d: Disk, changes: Seq<Change>, k: int)
    requires
        of_files(changes),
        0 <= k <= changes.len(),
    ensures
        after(d, changes.take(k)).database == d.database,
        after(d, changes.take(k)).saved_database == d.saved_database,
    decreases k,
{
    if k > 0 {
        lemma_of_files(d, changes, k - 1);
        assert(changes.take(k).drop_last() =~= changes.take(k - 1));
        assert(changes.take(k).last() == changes[k - 1]);
    }
}

proof fn lemma_of_files_concat(a: Seq<Change>, b: Seq<Change>)
    requires
        of_files(a),
        of_files(b),
    ensures
        of_files(a + b),
{
    assert forall|i: int| 0 <= i < (a + b).len() implies !((#[trigger] (a + b)[i]) is SaveDatabase)
        && !((a + b)[i] is WriteDatabase) && !((a + b)[i] is RemoveStaging) by {
        if i < a.len() {
            assert((a + b)[i] == a[i]);
        } else {
            assert((a + b)[i] == b[i - a.len()]);
        }
    }
}

proof fn lemma_trace_of_files(actions: Seq<RemovalAction>, w: Standing)
    ensures
        of_files(trace(actions, w)),
    decreases actions.len(),
{
    if actions.len() > 0 {
        lemma_trace_of_files(actions.drop_last(), w);
        assert(of_files(action_changes(actions.last(), w)));
        lemma_of_files_concat(trace(actions.drop_last(), w), action_changes(actions.last(), w));
    }
}

proof fn lemma_copies_of_files(copies: Seq<(Text, Leaf)>)
    ensures
        of_files(copy_changes(copies)),
    decreases copies.len(),
{
    if copies.len() > 0 {
        let front = copy_changes(copies.drop_last());
        lemma_copies_of_files(copies.drop_last());
        let two = seq![
            Change::Backup(copies.last().0),
            Change::Write(copies.last().0, copies.last().1),
        ];
        assert(of_files(two));
        lemma_of_files_concat(front, two);
        assert(copy_changes(copies) =~= front + two);
    }
}

proof fn lemma_all_of_files(works: Seq<Work>)
    ensures
        of_files(all_changes(works)),
    decreases works.len(),
{
    if works.len() > 0 {
        let w = works.last();
        lemma_all_of_files(works.drop_last());
        if let Some(old) = w.old {
            lemma_trace_of_files(transaction::package_removal(old.dir_exists, old.positions), old);
        }
        if let Some(new) = w.new {
            let copies = copies_of(transaction::copied_tree(new.entries).0, placed(new));
            let begin = seq![Change::Begin(new.dir)];
            lemma_trace_of_files(
                transaction::package_backup(new.standing.dir_exists, new.standing.positions),
                new.standing,
            );
            lemma_copy_trace(transaction::copied_tree(new.entries).0, placed(new));
            lemma_copies_of_files(copies);
            lemma_copies_of_files(new_links(new));
            lemma_of_files_concat(copy_changes(copies), copy_changes(new_links(new)));
            lemma_of_files_concat(backup_changes(new.standing), begin);
            lemma_of_files_concat(backup_changes(new.standing) + begin, arrival_writes(new));
            assert(new_changes(w) =~= backup_changes(new.standing) + begin + arrival_writes(new));
        }
        lemma_of_files_concat(old_changes(w), new_changes(w));
        lemma_of_files_concat(all_changes(works.drop_last()), work_changes(w));
    }
}

/// However far a commit got, a rollback gives everything back: every file and link of the prefix is
/// as it was at the start, whatever the steps removed and overwrote; the database is the one of the
/// start, or loads as the empty one where there was none; and the backups of files and links and the
/// staging directory are gone. The commit got as far as its first `k` changes.
pub proof fn lemma_commit_can_be_undone(
    start: Map<Text, Leaf>,
    stored: StoredView<Seq<InstalledEntryView>>,
    works: Seq<Work>,
    steps: Seq<PlanStepView>,
    current: Seq<InstalledEntryView>,
    staged: Seq<Staged>,
    entries: Seq<InstalledEntryView>,
    k: int,
)
    requires
        all_observed(changed(fresh_disk(start, stored), Change::SaveDatabase), works),
        all_follow(works, steps, current, staged),
        0 <= k <= commit_changes(works, entries).len(),
    ensures
        ({
            let d = after(fresh_disk(start, stored), commit_changes(works, entries).take(k));
            let end = after_rollback(
                d,
                transaction::rollback_actions(
                    steps,
                    copied_by(works, k - 1),
                    d.saved_database is Some,
                ),
            );
            &&& end.files == start
            &&& installed::loaded(end.database) == installed::loaded(stored)
            &&& !(stored is Missing) ==> end.database == stored
            &&& end.backup == Map::<Text, Leaf>::empty()
            &&& !end.staging
        }),
{
    let d0 = fresh_disk(start, stored);
    let base = changed(d0, Change::SaveDatabase);
    let all = all_changes(works);
    let trace = commit_changes(works, entries);
    let d = after(d0, trace.take(k));
    let copied = copied_by(works, k - 1);
    let dirs = transaction::rollback_dirs(steps, copied);
    let n = works.len() as int;
    assert(works.take(n) =~= works);
    assert(steps.take(n) =~= steps);
    installed::lemma_saved_loads_alike(stored);
    lemma_nothing_to_undo(d0);
    lemma_after_rollback(d, steps, copied);
    if k == 0 {
        assert(trace.take(0) =~= Seq::empty());
        assert(dirs =~= Seq::empty()) by {
            lemma_none_copied(steps, copied);
        }
        lemma_rollback_restores(start, d0);
    } else {
        let j: int = if k - 1 <= all.len() {
            k - 1
        } else {
            all.len() as int
        };
        let done = all.take(j);
        let save = seq![Change::SaveDatabase];
        let tail = seq![Change::WriteDatabase(entries), Change::RemoveStaging].take(k - 1 - j);
        assert(undoable(start, base));
        lemma_works(start, base, works, works.len());
        lemma_database_untouched(base, works, j);
        let m = after(base, done);
        assert(undoable(start, m));
        assert(trace.take(k) =~= save + done + tail);
        assert(save.drop_last() =~= Seq::empty());
        reveal_with_fuel(after, 3);
        assert(after(d0, save) == base);
        lemma_after_concat(d0, save, done);
        lemma_after_concat(d0, save + done, tail);
        assert(d == after(m, tail));
        lemma_ending(m, entries, k - 1 - j);
        lemma_dirs(base, done);
        assert(first(all, k - 1) =~= done);
        lemma_begun(works, steps, current, staged, k - 1, n);
        assert(m.dirs =~= dirs);
        lemma_rollback_restores(start, m);
    }
}

/// Writing the database and removing the staging directory leave files, links and backups alone.
proof fn lemma_ending(m: Disk, entries: Seq<InstalledEntryView>, j: int)
    requires
        0 <= j <= 2,
    ensures
        ({
            let tail = seq![Change::WriteDatabase(entries), Change::RemoveStaging].take(j);
            let d = after(m, tail);
            &&& d.files == m.files
            &&& d.backup == m.backup
            &&& d.dirs == m.dirs
            &&& d.saved_database == m.saved_database
        }),
{
    let tail = seq![Change::WriteDatabase(entries), Change::RemoveStaging].take(j);
    reveal_with_fuel(after, 3);
    if j == 1 {
        assert(tail.drop_last() =~= Seq::empty());
    } else if j == 2 {
        assert(tail.drop_last() =~= seq![Change::WriteDatabase(entries)]);
        assert(tail.drop_last().drop_last() =~= Seq::empty());
    }
}

proof fn lemma_none_copied(steps: Seq<PlanStepView>, copied: Seq<bool>)
    requires
        copied.len() >= steps.len(),
        forall|i: int| 0 <= i < steps.len() ==> !#[trigger] copied[i],
    ensures
        transaction::rollback_dirs(steps, copied) == Seq::<Text>::empty(),
    decreases steps.len(),
{
    if steps.len() > 0 {
        lemma_none_copied(steps.drop_last(), copied);
        assert(!copied[steps.len() - 1]);
    }
}

/// What is written last at a path stands there.
proof fn lemma_written(d: Disk, copies: Seq<(Text, Leaf)>, i: int)
    requires
        0 <= i < copies.len(),
        forall|j: int|
            i < j < copies.len() && (#[trigger] copies[j]).0 == copies[i].0 ==> copies[j].1
                == copies[i].1,
    ensures
        after(d, copy_changes(copies)).files.dom().contains(copies[i].0),
        after(d, copy_changes(copies)).files[copies[i].0] == copies[i].1,
    decreases copies.len(),
{
    let front = copies.drop_last();
    let last = copies.last();
    let before = copy_changes(front);
    let m = after(d, before);
    let one = before.push(Change::Backup(last.0));
    let changes = one.push(Change::Write(last.0, last.1));
    assert(changes.drop_last() =~= one);
    assert(one.drop_last() =~= before);
    assert(after(d, one) == changed(m, Change::Backup(last.0)));
    assert(after(d, changes) == changed(after(d, one), Change::Write(last.0, last.1)));
    assert(last == copies[copies.len() - 1]);
    if i < front.len() {
        assert(front[i] == copies[i]);
        assert forall|j: int|
            i < j < front.len() && (#[trigger] front[j]).0 == front[i].0 implies front[j].1
            == front[i].1 by {
            assert(front[j] == copies[j]);
        }
        lemma_written(d, front, i);
    }
}

/// What stands at a path, or is written there, keeps something standing there.
proof fn lemma_stands(d: Disk, copies: Seq<(Text, Leaf)>, p: Text)
    requires
        d.files.dom().contains(p) || exists|j: int|
            0 <= j < copies.len() && (#[trigger] copies[j]).0 == p,
    ensures
        after(d, copy_changes(copies)).files.dom().contains(p),
    decreases copies.len(),
{
    if copies.len() > 0 {
        let front = copies.drop_last();
        let last = copies.last();
        let before = copy_changes(front);
        let one = before.push(Change::Backup(last.0));
        let changes = one.push(Change::Write(last.0, last.1));
        assert(changes.drop_last() =~= one);
        assert(one.drop_last() =~= before);
        assert(after(d, one) == changed(after(d, before), Change::Backup(last.0)));
        assert(after(d, changes) == changed(after(d, one), Change::Write(last.0, last.1)));
        assert(last == copies[copies.len() - 1]);
        if last.0 != p {
            if !d.files.dom().contains(p) {
                let j = choose|j: int| 0 <= j < copies.len() && (#[trigger] copies[j]).0 == p;
                assert(front[j] == copies[j]);
            }
            lemma_stands(d, front, p);
        }
    }
}

/// Where the files of a tree can be listed, all its files and links are copied.
proof fn lemma_all_copied(entries: Seq<TreeEntryView>, at: Seq<(Text, Leaf)>, i: int)
    requires
        transaction::relative_files(entries) is Ok,
        0 <= i < entries.len() <= at.len(),
        entries.len() <= usize::MAX,
        entries[i].kind != EntryKind::Directory,
    ensures
        copies_of(transaction::copied_tree(entries).0, at).contains(at[i]),
    decreases entries.len(),
{
    let d = entries.drop_last();
    let n = (entries.len() - 1) as usize;
    let front = transaction::copied_tree(d).0;
    let actions = transaction::copied_tree(entries).0;
    lemma_not_stopped(d);
    assert(actions == front.push(transaction::tree_action(entries.last().kind, n)));
    assert(actions.drop_last() =~= front);
    let before = copies_of(front, at);
    if i < d.len() {
        assert(d[i] == entries[i]);
        lemma_all_copied(d, at, i);
        lists::lemma_push_contains(before, at[n as int], at[i]);
    } else {
        assert(entries.last() == entries[i]);
        lists::lemma_push_contains(before, at[n as int], at[i]);
    }
}

proof fn lemma_not_stopped(entries: Seq<TreeEntryView>)
    requires
        transaction::relative_files(entries) is Ok,
    ensures
        !transaction::copied_tree(entries).1,
    decreases entries.len(),
{
    if entries.len() > 0 {
        lemma_not_stopped(entries.drop_last());
    }
}

/// After a package was copied, each of its files stands in the package directory.
pub proof fn lemma_files_in_place(d: Disk, a: Arrival, i: int)
    requires
        transaction::relative_files(a.entries) is Ok,
        a.entries.len() == a.leaves.len(),
        a.entries.len() <= usize::MAX,
        0 <= i < a.entries.len(),
        a.entries[i].kind != EntryKind::Directory,
    ensures
        after(d, arrival_changes(a)).files.dom().contains(
            "pkgs/"@ + a.dir + "/"@ + a.entries[i].path,
        ),
{
    let head = backup_changes(a.standing).push(Change::Begin(a.dir));
    let at = placed(a);
    let actions = transaction::copied_tree(a.entries).0;
    let copies = copies_of(actions, at);
    let path = "pkgs/"@ + a.dir + "/"@ + a.entries[i].path;
    let x = after(d, head);
    lemma_copy_trace(actions, at);
    lemma_after_concat(d, head, arrival_writes(a));
    lemma_after_concat(x, copy_trace(actions, at), copy_changes(new_links(a)));
    lemma_all_copied(a.entries, at, i);
    let j = choose|j: int| 0 <= j < copies.len() && copies[j] == at[i];
    assert(copies[j].0 == path);
    lemma_stands(x, copies, path);
    lemma_stands(after(x, copy_changes(copies)), new_links(a), path);
}

/// After a package was copied, each of its programs and manual pages has a link in the prefix, at
/// the path of the file, that points to the file in the package directory.
pub proof fn lemma_links_in_place(d: Disk, a: Arrival, file: Text)
    requires
        transaction::relative_files(a.entries) matches Ok(files) && files.contains(file),
        transaction::linked()(file),
    ensures
        after(d, arrival_changes(a)).files.dom().contains(file),
        after(d, arrival_changes(a)).files[file] == Leaf::Link("pkgs/"@ + a.dir + "/"@ + file),
        transaction::belongs(
            a.dir,
            file,
            target_of(after(d, arrival_changes(a)).files[file]),
        ),
{
    let files = transaction::relative_files(a.entries)->Ok_0;
    let chosen = files.filter(transaction::linked());
    lists::lemma_filter(files, transaction::linked());
    assert(chosen.contains(file));
    let i = choose|i: int| 0 <= i < chosen.len() && chosen[i] == file;
    let links = new_links(a);
    let head = backup_changes(a.standing).push(Change::Begin(a.dir));
    let tree = copy_trace(transaction::copied_tree(a.entries).0, placed(a));
    let m = after(after(d, head), tree);
    lemma_after_concat(d, head, arrival_writes(a));
    lemma_after_concat(after(d, head), tree, copy_changes(links));
    assert(links[i] == (file, Leaf::Link("pkgs/"@ + a.dir + "/"@ + file)));
    assert forall|j: int| i < j < links.len() && (#[trigger] links[j]).0 == links[i].0 implies
        links[j].1 == links[i].1 by {
        assert(links[j] == (chosen[j], Leaf::Link("pkgs/"@ + a.dir + "/"@ + chosen[j])));
    }
    lemma_written(m, links, i);
    reveal_strlit("pkgs/");
    paths::lemma_below("pkgs/"@ + a.dir, file);
}

/// When a package is taken away, after all that stands of it was found, nothing of it is left: no
/// file in its directory, and none of the links of its programs and manual pages.
pub proof fn lemma_nothing_left(d: Disk, w: Standing, dir: Text, p: Text)
    requires
        consistent(w),
        complete(w, d.files, dir),
    ensures
        after(d, removal_changes(w)).files.dom().contains(p) ==> !transaction::belongs(
            dir,
            p,
            target_of(after(d, removal_changes(w)).files[p]),
        ),
{
    let e = after(d, removal_changes(w));
    let bare = Disk { backup: Map::empty(), dirs: Seq::empty(), ..d };
    lemma_nothing_to_undo(bare);
    lemma_removal_can_be_undone(d.files, bare, w);
    lemma_same_files(d, bare, removal_changes(w));
    if e.files.dom().contains(p) {
        assert(!found(w, p));
        assert(same_at(bare.files, after(bare, removal_changes(w)).files, p));
    }
}

/// The files after changes do not depend on the backups.
proof fn lemma_same_files(a: Disk, b: Disk, changes: Seq<Change>)
    requires
        a.files == b.files,
    ensures
        after(a, changes).files == after(b, changes).files,
    decreases changes.len(),
{
    if changes.len() > 0 {
        lemma_same_files(a, b, changes.drop_last());
    }
}

/// The links of a package live as long as the package: they are in place once it was copied, and
/// after any later changes, when the package is removed or upgraded and all that stands of it was
/// found, none of them points into it any more.
pub proof fn lemma_links_go_with_package(
    d: Disk,
    a: Arrival,
    file: Text,
    later: Seq<Change>,
    w: Standing,
)
    requires
        transaction::relative_files(a.entries) matches Ok(files) && files.contains(file),
        transaction::linked()(file),
        consistent(w),
        complete(w, after(after(d, arrival_changes(a)), later).files, a.dir),
    ensures
        after(d, arrival_changes(a)).files.dom().contains(file),
        after(d, arrival_changes(a)).files[file] == Leaf::Link("pkgs/"@ + a.dir + "/"@ + file),
        ({
            let end = after(after(after(d, arrival_changes(a)), later), removal_changes(w)).files;
            end.dom().contains(file) ==> end[file] != Leaf::Link("pkgs/"@ + a.dir + "/"@ + file)
        }),
{
    lemma_links_in_place(d, a, file);
    let x = after(after(d, arrival_changes(a)), later);
    lemma_nothing_left(x, w, a.dir, file);
    reveal_strlit("pkgs/");
    paths::lemma_below("pkgs/"@ + a.dir, file);
}

/// What a commit leaves: the files and links that its steps leave, the new database, and no staging
/// directory.
pub proof fn lemma_committed(d: Disk, works: Seq<Work>, entries: Seq<InstalledEntryView>)
    ensures
        after(d, commit_changes(works, entries)).files == after(d, all_changes(works)).files,
        after(d, commit_changes(works, entries)).database == StoredView::Document(entries),
        !after(d, commit_changes(works, entries)).staging,
{
    let save = seq![Change::SaveDatabase];
    let all = all_changes(works);
    let one = save + all;
    let two = one.push(Change::WriteDatabase(entries));
    let three = two.push(Change::RemoveStaging);
    assert(commit_changes(works, entries) =~= three);
    assert(three.drop_last() =~= two);
    assert(two.drop_last() =~= one);
    assert(after(d, three) == changed(after(d, two), Change::RemoveStaging));
    assert(after(d, two) == changed(after(d, one), Change::WriteDatabase(entries)));
    lemma_after_concat(d, save, all);
    assert(save.drop_last() =~= Seq::empty());
    reveal_with_fuel(after, 2);
    assert(after(d, save) == changed(d, Change::SaveDatabase));
    lemma_same_files(after(d, save), d, all);
}

/// A file or link of a tree whose files can be listed is listed.
proof fn lemma_listed(entries: Seq<TreeEntryView>, i: int)
    requires
        transaction::relative_files(entries) is Ok,
        0 <= i < entries.len(),
        entries[i].kind != EntryKind::Directory,
    ensures
        transaction::relative_files(entries)->Ok_0.contains(
            text::replaced(entries[i].path, '\\', '/'),
        ),
    decreases entries.len(),
{
    let front = entries.drop_last();
    let file = text::replaced(entries[i].path, '\\', '/');
    let files = transaction::relative_files(entries)->Ok_0;
    let before = transaction::relative_files(front)->Ok_0;
    if i < front.len() {
        assert(front[i] == entries[i]);
        lemma_listed(front, i);
        if entries.last().kind != EntryKind::Directory {
            let last = text::replaced(entries.last().path, '\\', '/');
            lists::lemma_push_contains(before, last, file);
        }
    } else {
        assert(entries.last() == entries[i]);
        lists::lemma_push_contains(before, file, file);
    }
}

/// What stands at a path after copies is what stood there before, or one of the copies.
proof fn lemma_copied_at(d: Disk, copies: Seq<(Text, Leaf)>, p: Text)
    ensures
        ({
            let e = after(d, copy_changes(copies)).files;
            same_at(d.files, e, p) || (e.dom().contains(p) && copies.contains((p, e[p])))
        }),
    decreases copies.len(),
{
    if copies.len() > 0 {
        let front = copies.drop_last();
        let last = copies.last();
        let before = copy_changes(front);
        let m = after(d, before);
        let one = before.push(Change::Backup(last.0));
        let changes = one.push(Change::Write(last.0, last.1));
        assert(changes.drop_last() =~= one);
        assert(one.drop_last() =~= before);
        assert(after(d, one) == changed(m, Change::Backup(last.0)));
        assert(after(d, changes) == changed(after(d, one), Change::Write(last.0, last.1)));
        let e = after(d, changes).files;
        assert(copies[copies.len() - 1] == last);
        lemma_copied_at(d, front, p);
        if last.0 == p {
            assert(copies.contains((p, e[p])));
        } else if !same_at(d.files, m.files, p) {
            let j = choose|j: int| 0 <= j < front.len() && front[j] == (p, m.files[p]);
            assert(copies[j] == (p, e[p]));
        }
    }
}

/// A package that is copied makes no link into another package.
proof fn lemma_no_other_links(d: Disk, b: Arrival, dir: Text, file: Text)
    requires
        b.dir != dir,
        transaction::linked()(file),
        consistent(b.standing),
        b.entries.len() <= usize::MAX,
        d.files.dom().contains(file) ==> d.files[file] != Leaf::Link(
            "pkgs/"@ + dir + "/"@ + file,
        ),
    ensures
        ({
            let e = after(d, arrival_changes(b)).files;
            e.dom().contains(file) ==> e[file] != Leaf::Link("pkgs/"@ + dir + "/"@ + file)
        }),
{
    let keep = backup_changes(b.standing);
    let head = keep.push(Change::Begin(b.dir));
    let actions = transaction::copied_tree(b.entries).0;
    let copies = copies_of(actions, placed(b));
    let links = new_links(b);
    let bare = Disk { backup: Map::empty(), dirs: Seq::empty(), ..d };
    lemma_nothing_to_undo(bare);
    lemma_backup_can_be_undone(d.files, bare, b.standing);
    lemma_same_files(d, bare, keep);
    assert(head.drop_last() =~= keep);
    let x = after(d, head);
    assert(x.files == d.files);
    lemma_copy_trace(actions, placed(b));
    lemma_after_concat(d, head, arrival_writes(b));
    lemma_after_concat(x, copy_changes(copies), copy_changes(links));
    let y = after(x, copy_changes(copies));
    let z = after(y, copy_changes(links));
    lemma_copied_at(x, copies, file);
    lemma_copied_at(y, links, file);
    reveal_strlit("pkgs/");
    reveal_strlit("bin/");
    reveal_strlit("share/man/");
    if !same_at(x.files, y.files, file) {
        let j = choose|j: int| 0 <= j < copies.len() && copies[j] == (file, y.files[file]);
        lemma_copies_placed(b.entries, placed(b));
        assert(placed(b).contains(copies[j]));
        let i = choose|i: int| 0 <= i < placed(b).len() && placed(b)[i] == copies[j];
        let at = "pkgs/"@ + b.dir + "/"@ + b.entries[i].path;
        assert(file == at);
        assert(at[0] == 'p');
        if "bin/"@.is_prefix_of(file) {
            assert("bin/"@[0] == file.subrange(0, "bin/"@.len() as int)[0]);
        } else {
            assert("share/man/"@[0] == file.subrange(0, "share/man/"@.len() as int)[0]);
        }
        assert(file[0] != 'p');
    }
    if !same_at(y.files, z.files, file) {
        let j = choose|j: int| 0 <= j < links.len() && links[j] == (file, z.files[file]);
        let files = transaction::relative_files(b.entries)->Ok_0;
        let target = "pkgs/"@ + b.dir + "/"@ + file;
        assert(links[j].1 == Leaf::Link(target));
        let other = "pkgs/"@ + dir + "/"@ + file;
        if target == other {
            assert(target.len() == other.len());
            assert(b.dir =~= target.subrange(5, 5 + b.dir.len() as int));
            assert(dir =~= other.subrange(5, 5 + dir.len() as int));
        }
    }
}

/// Manual pages and programs over commits: once a plan was committed whose last step copied a
/// package, each file of the package stands in the package directory, and if it is a program or a
/// manual page a link at its path points to it. After any later changes and a committed removal of
/// the package, or an upgrade to another version, that link is gone.
pub proof fn lemma_links_over_commits(
    d: Disk,
    works: Seq<Work>,
    entries: Seq<InstalledEntryView>,
    a: Arrival,
    i: int,
    between: Seq<Change>,
    next: Work,
    later: Seq<InstalledEntryView>,
)
    requires
        works.len() > 0,
        works.last().new == Some(a),
        transaction::relative_files(a.entries) is Ok,
        a.entries.len() == a.leaves.len(),
        a.entries.len() <= usize::MAX,
        0 <= i < a.entries.len(),
        a.entries[i].kind != EntryKind::Directory,
        transaction::linked()(text::replaced(a.entries[i].path, '\\', '/')),
        ({
            let x = after(after(d, commit_changes(works, entries)), between);
            next.old matches Some(old) && consistent(old) && complete(old, x.files, a.dir)
        }),
        next.new matches Some(b) ==> b.dir != a.dir && consistent(b.standing) && b.entries.len()
            <= usize::MAX,
    ensures
        ({
            let file = text::replaced(a.entries[i].path, '\\', '/');
            let link = Leaf::Link("pkgs/"@ + a.dir + "/"@ + file);
            let first = after(d, commit_changes(works, entries));
            let second = after(after(first, between), commit_changes(seq![next], later));
            &&& first.files.dom().contains("pkgs/"@ + a.dir + "/"@ + a.entries[i].path)
            &&& first.files.dom().contains(file)
            &&& first.files[file] == link
            &&& second.files.dom().contains(file) ==> second.files[file] != link
        }),
{
    let file = text::replaced(a.entries[i].path, '\\', '/');
    let link = Leaf::Link("pkgs/"@ + a.dir + "/"@ + file);
    let w = works.last();
    let front = all_changes(works.drop_last());
    let c = after(after(d, front), old_changes(w));
    lemma_committed(d, works, entries);
    lemma_after_concat(d, front, work_changes(w));
    lemma_after_concat(after(d, front), old_changes(w), new_changes(w));
    lemma_files_in_place(c, a, i);
    lemma_listed(a.entries, i);
    lemma_links_in_place(c, a, file);
    let x = after(after(d, commit_changes(works, entries)), between);
    let one = seq![next];
    lemma_committed(x, one, later);
    assert(one.drop_last() =~= Seq::empty());
    reveal_with_fuel(all_changes, 2);
    assert(all_changes(one) =~= work_changes(next));
    lemma_after_concat(x, old_changes(next), new_changes(next));
    let y = after(x, old_changes(next));
    let old = next.old->0;
    lemma_nothing_left(x, old, a.dir, file);
    if y.files.dom().contains(file) && y.files[file] == link {
        reveal_strlit("pkgs/");
        paths::lemma_below("pkgs/"@ + a.dir, file);
    }
    if let Some(b) = next.new {
        lemma_no_other_links(y, b, a.dir, file);
    }
}

} // verus!
