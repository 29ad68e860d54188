//! Transaction layer: staging dir, per-user lock, commit, rollback, backups, logs.
//!
//! Single-machine, single-user; lock is process-scoped, not cross-machine. What is decided about a
//! transaction stands here: the order of the work, what each plan step does to the prefix, the new
//! database, the paths, and the messages. The work itself is done by the caller, who reports back.

use vstd::prelude::*;
use vstd::string::*;

use crate::package_name::PackageName;
use crate::paths;
use crate::resolver::plan::{Plan, PlanAction, PlanStep, PlanStepView, PlanView};
use crate::storage::installed;
use crate::storage::installed::{InstalledEntryView, InstalledLoadErrorView};
use crate::storage::{InstalledDb, InstalledEntry, InstalledLoadError};
use crate::table;
use crate::text;
use crate::text::Text;
use crate::views;

verus! {

/// Transaction type: install, upgrade, or remove.
#[derive(Clone, Copy, Debug, Eq, PartialEq, Structural)]
pub enum TransactionType {
    Install,
    Upgrade,
    Remove,
}

/// Transaction state: only Pending -> Committed or Pending -> RolledBack.
#[derive(Clone, Copy, Debug, Eq, PartialEq, Structural)]
pub enum TransactionState {
    Pending,
    Committed,
    RolledBack,
}

/// A transaction: id, type, plan, and state.
#[derive(Clone, Debug)]
pub struct Transaction {
    pub id: String,
    pub tx_type: TransactionType,
    pub plan: Plan,
    pub state: TransactionState,
}

/// What a [`Transaction`] holds.
pub struct TransactionView {
    pub id: Text,
    pub tx_type: TransactionType,
    pub plan: PlanView,
    pub state: TransactionState,
}

impl DeepView for Transaction {
    type V = TransactionView;

    open spec fn deep_view(&self) -> TransactionView {
        TransactionView {
            id: self.id@,
            tx_type: self.tx_type,
            plan: self.plan@,
            state: self.state,
        }
    }
}

impl View for Transaction {
    type V = TransactionView;

    open spec fn view(&self) -> TransactionView {
        self.deep_view()
    }
}

/// Lock file path under prefix.
pub const LOCK_FILENAME: &'static str = "var/sic.lock";

/// The staging directory of a transaction, under the prefix: tmp/<tx-id>.
pub fn staging_path(tx_id: &str) -> (r: String)
    ensures
        r@ == "tmp/"@ + tx_id@,
{
    "tmp/".to_owned().concat(tx_id)
}

/// The backup directory for replaced files, under the prefix: backups/<tx-id>.
pub fn backup_dir(tx_id: &str) -> (r: String)
    ensures
        r@ == "backups/"@ + tx_id@,
{
    "backups/".to_owned().concat(tx_id)
}

/// The path, under the prefix, to the installed.toml backup for a transaction.
pub fn installed_backup_path(tx_id: &str) -> (r: String)
    ensures
        r@ == "var/backups/installed."@ + tx_id@ + ".toml"@,
{
    "var/backups/installed.".to_owned().concat(tx_id).concat(".toml")
}

/// The transaction log path, under the prefix: var/transactions/<tx-id>.log.
pub fn transaction_log_path(tx_id: &str) -> (r: String)
    ensures
        r@ == "var/transactions/"@ + tx_id@ + ".log"@,
{
    "var/transactions/".to_owned().concat(tx_id).concat(".log")
}

/// Error of a transaction, in words.
#[derive(Debug, Eq, PartialEq)]
pub struct TransactionError(String);

impl View for TransactionError {
    type V = Text;

    closed spec fn view(&self) -> Text {
        self.0@
    }
}

impl DeepView for TransactionError {
    type V = Text;

    open spec fn deep_view(&self) -> Text {
        self@
    }
}

impl Clone for TransactionError {
    fn clone(&self) -> (r: Self)
        ensures
            r@ == self@,
    {
        TransactionError(self.0.clone())
    }
}

impl TransactionError {
    /// An error of reading or writing.
    pub fn io_err(e: &str) -> (r: Self)
        ensures
            r@ == "transaction io: "@ + e@,
    {
        TransactionError("transaction io: ".to_owned().concat(e))
    }

    /// An error of taking the lock.
    pub fn lock_err(msg: &str) -> (r: Self)
        ensures
            r@ == "lock: "@ + msg@,
    {
        TransactionError("lock: ".to_owned().concat(msg))
    }

    /// Creates a transaction error from an arbitrary message (e.g. from stage/layout).
    pub fn msg(s: &str) -> (r: Self)
        ensures
            r@ == s@,
    {
        TransactionError(s.to_owned())
    }

    /// The error in words.
    pub fn to_string(&self) -> (r: String)
        ensures
            r@ == self@,
    {
        self.0.clone()
    }
}

/// The line of the transaction log for a state.
pub fn log_line(timestamp: u64, tx_id: &str, state_label: &str) -> (r: String)
    ensures
        r@ == text::decimal(timestamp as nat) + " tx="@ + tx_id@ + " state="@ + state_label@
            + "\n"@,
{
    text::decimal_text(timestamp).concat(" tx=").concat(tx_id).concat(" state=").concat(
        state_label,
    ).concat("\n")
}

/// What happened in the course of a commit.
#[derive(Debug)]
pub enum CommitEvent {
    /// The lock was taken, or could not be.
    Locked(Result<(), TransactionError>),
    /// The installed packages were loaded, or could not be.
    Loaded(Result<(), InstalledLoadError>),
    /// The database was backed up, or could not be.
    Saved(Result<(), TransactionError>),
    /// All plan steps were applied, or one of them failed.
    Applied(Result<(), TransactionError>),
    /// The new database was written, or could not be.
    Written(Result<(), TransactionError>),
    /// The rollback is over; the failure that caused it.
    RolledBack(TransactionError),
    /// The staging directory was removed, or could not be.
    StagingRemoved(Result<(), TransactionError>),
    /// The new state was logged, or could not be.
    Logged(Result<(), TransactionError>),
}

/// What a [`CommitEvent`] holds.
pub enum CommitEventView {
    Locked(Result<(), Text>),
    Loaded(Result<(), InstalledLoadErrorView>),
    Saved(Result<(), Text>),
    Applied(Result<(), Text>),
    Written(Result<(), Text>),
    RolledBack(Text),
    StagingRemoved(Result<(), Text>),
    Logged(Result<(), Text>),
}

impl DeepView for CommitEvent {
    type V = CommitEventView;

    open spec fn deep_view(&self) -> CommitEventView {
        match self {
            CommitEvent::Locked(r) => CommitEventView::Locked(views::result_view(*r)),
            CommitEvent::Loaded(r) => CommitEventView::Loaded(views::result_view(*r)),
            CommitEvent::Saved(r) => CommitEventView::Saved(views::result_view(*r)),
            CommitEvent::Applied(r) => CommitEventView::Applied(views::result_view(*r)),
            CommitEvent::Written(r) => CommitEventView::Written(views::result_view(*r)),
            CommitEvent::RolledBack(e) => CommitEventView::RolledBack(e@),
            CommitEvent::StagingRemoved(r) => CommitEventView::StagingRemoved(
                views::result_view(*r),
            ),
            CommitEvent::Logged(r) => CommitEventView::Logged(views::result_view(*r)),
        }
    }
}

/// What to do next in the course of a commit.
#[derive(Debug, Eq, PartialEq)]
pub enum CommitAction {
    /// Take the lock.
    Lock,
    /// Load the installed packages.
    Load,
    /// Back up the database, or what stands in for it.
    SaveDatabase,
    /// Apply the plan steps.
    Apply,
    /// Write the new database.
    WriteDatabase,
    /// Roll back because of the failure, with the reason "commit failure".
    RollBack(TransactionError),
    /// Remove the staging directory.
    RemoveStaging,
    /// Log that the transaction is committed.
    LogCommitted,
    /// The commit is done.
    Done,
    /// The commit has failed.
    Fail(TransactionError),
}

/// What a [`CommitAction`] holds.
pub enum CommitActionView {
    Lock,
    Load,
    SaveDatabase,
    Apply,
    WriteDatabase,
    RollBack(Text),
    RemoveStaging,
    LogCommitted,
    Done,
    Fail(Text),
}

impl DeepView for CommitAction {
    type V = CommitActionView;

    open spec fn deep_view(&self) -> CommitActionView {
        match self {
            CommitAction::Lock => CommitActionView::Lock,
            CommitAction::Load => CommitActionView::Load,
            CommitAction::SaveDatabase => CommitActionView::SaveDatabase,
            CommitAction::Apply => CommitActionView::Apply,
            CommitAction::WriteDatabase => CommitActionView::WriteDatabase,
            CommitAction::RollBack(e) => CommitActionView::RollBack(e@),
            CommitAction::RemoveStaging => CommitActionView::RemoveStaging,
            CommitAction::LogCommitted => CommitActionView::LogCommitted,
            CommitAction::Done => CommitActionView::Done,
            CommitAction::Fail(e) => CommitActionView::Fail(e@),
        }
    }
}

impl View for CommitAction {
    type V = CommitActionView;

    open spec fn view(&self) -> CommitActionView {
        self.deep_view()
    }
}

/// How a commit begins: only a pending transaction can be committed.
pub open spec fn commit_start(state: TransactionState) -> CommitActionView {
    if state == TransactionState::Pending {
        CommitActionView::Lock
    } else {
        CommitActionView::Fail("commit only allowed when state is Pending"@)
    }
}

/// How a commit goes on after an event. Whatever fails once the database began to be backed up is
/// rolled back.
pub open spec fn commit_next(event: CommitEventView) -> CommitActionView {
    match event {
        CommitEventView::Locked(Ok(())) => CommitActionView::Load,
        CommitEventView::Locked(Err(e)) => CommitActionView::Fail(e),
        CommitEventView::Loaded(Ok(())) => CommitActionView::SaveDatabase,
        CommitEventView::Loaded(Err(e)) => CommitActionView::Fail(
            "load installed.toml: "@ + installed::load_error_text(e),
        ),
        CommitEventView::Saved(Ok(())) => CommitActionView::Apply,
        CommitEventView::Saved(Err(e)) => CommitActionView::RollBack(e),
        CommitEventView::Applied(Ok(())) => CommitActionView::WriteDatabase,
        CommitEventView::Applied(Err(e)) => CommitActionView::RollBack(e),
        CommitEventView::Written(Ok(())) => CommitActionView::RemoveStaging,
        CommitEventView::Written(Err(e)) => CommitActionView::RollBack(e),
        CommitEventView::RolledBack(e) => CommitActionView::Fail(e),
        CommitEventView::StagingRemoved(Ok(())) => CommitActionView::LogCommitted,
        CommitEventView::StagingRemoved(Err(e)) => CommitActionView::RollBack(e),
        CommitEventView::Logged(Ok(())) => CommitActionView::Done,
        CommitEventView::Logged(Err(e)) => CommitActionView::RollBack(e),
    }
}

/// The state after an event: a pending transaction is committed once its plan was applied, its
/// staging directory removed, and the commit logged.
pub open spec fn committed_state(state: TransactionState, event: CommitEventView) -> TransactionState {
    if state == TransactionState::Pending && (event matches CommitEventView::Logged(r) && r is Ok) {
        TransactionState::Committed
    } else {
        state
    }
}

/// The label of a rollback in the log.
pub open spec fn rollback_label(reason: Option<Text>) -> Text {
    match reason {
        Some(r) => "rolled_back reason="@ + r,
        None => "rolled_back"@,
    }
}

/// The package directories, under `pkgs`, that a rollback deletes: those that packages were copied
/// to.
pub open spec fn rollback_dirs(steps: Seq<PlanStepView>, copied: Seq<bool>) -> Seq<Text>
    decreases steps.len(),
{
    if steps.len() == 0 {
        Seq::empty()
    } else {
        let front = rollback_dirs(steps.drop_last(), copied);
        if copied[steps.len() - 1] {
            front.push(dir_of(steps.last().name, steps.last().version))
        } else {
            front
        }
    }
}

/// What a rollback does to the prefix.
#[derive(Debug, Eq, PartialEq)]
pub enum RollbackAction {
    /// Delete `pkgs/<dir_name>` and the links that point into it.
    DeletePackage { dir_name: String },
    /// Put the backup of the database back.
    RestoreDatabase,
    /// Put the backups of files and links back.
    RestoreBackups,
    /// Remove the backups of files and links.
    RemoveBackups,
    /// Remove the staging directory.
    RemoveStaging,
}

/// What a [`RollbackAction`] holds.
pub enum RollbackActionView {
    DeletePackage { dir_name: Text },
    RestoreDatabase,
    RestoreBackups,
    RemoveBackups,
    RemoveStaging,
}

impl DeepView for RollbackAction {
    type V = RollbackActionView;

    open spec fn deep_view(&self) -> RollbackActionView {
        match self {
            RollbackAction::DeletePackage { dir_name } => RollbackActionView::DeletePackage {
                dir_name: dir_name@,
            },
            RollbackAction::RestoreDatabase => RollbackActionView::RestoreDatabase,
            RollbackAction::RestoreBackups => RollbackActionView::RestoreBackups,
            RollbackAction::RemoveBackups => RollbackActionView::RemoveBackups,
            RollbackAction::RemoveStaging => RollbackActionView::RemoveStaging,
        }
    }
}

/// The deletion of the packages in the directories.
pub open spec fn deletions(dirs: Seq<Text>) -> Seq<RollbackActionView> {
    dirs.map_values(|dir: Text| RollbackActionView::DeletePackage { dir_name: dir })
}

/// What a rollback does, where `copied` tells of each step whether its package began to be copied,
/// and `saved` whether the database was backed up.
pub open spec fn rollback_actions(
    steps: Seq<PlanStepView>,
    copied: Seq<bool>,
    saved: bool,
) -> Seq<RollbackActionView> {
    deletions(rollback_dirs(steps, copied)) + (if saved {
        seq![RollbackActionView::RestoreDatabase]
    } else {
        Seq::empty()
    }) + seq![
        RollbackActionView::RestoreBackups,
        RollbackActionView::RemoveBackups,
        RollbackActionView::RemoveStaging,
    ]
}

impl Transaction {
    /// Creates a new transaction with Pending state.
    pub fn new(tx_type: TransactionType, plan: Plan, id: &str) -> (r: Self)
        ensures
            r@ == (TransactionView {
                id: id@,
                tx_type,
                plan: plan@,
                state: TransactionState::Pending,
            }),
    {
        Transaction { id: id.to_owned(), tx_type, plan, state: TransactionState::Pending }
    }

    /// Begins the commit of the transaction: acquire lock, backup installed.toml, apply plan (copy
    /// from staging, backup overwrites), write new installed.toml, remove staging, log, release
    /// lock. On any error after applying steps, rolls back.
    pub fn commit(&self) -> (r: CommitAction)
        ensures
            r@ == commit_start(self.state),
    {
        if self.state != TransactionState::Pending {
            return CommitAction::Fail(
                TransactionError::msg("commit only allowed when state is Pending"),
            );
        }
        CommitAction::Lock
    }

    /// Goes on with the commit after an event.
    pub fn next(&mut self, event: CommitEvent) -> (r: CommitAction)
        ensures
            r@ == commit_next(event.deep_view()),
            final(self)@ == (TransactionView {
                state: committed_state(old(self).state, event.deep_view()),
                ..old(self)@
            }),
    {
        match event {
            CommitEvent::Locked(Ok(())) => CommitAction::Load,
            CommitEvent::Locked(Err(e)) => CommitAction::Fail(e),
            CommitEvent::Loaded(Ok(())) => CommitAction::SaveDatabase,
            CommitEvent::Loaded(Err(e)) => {
                let text = "load installed.toml: ".to_owned().concat(e.to_string().as_str());
                CommitAction::Fail(TransactionError(text))
            },
            CommitEvent::Saved(Ok(())) => CommitAction::Apply,
            CommitEvent::Saved(Err(e)) => CommitAction::RollBack(e),
            CommitEvent::Applied(Ok(())) => CommitAction::WriteDatabase,
            CommitEvent::Applied(Err(e)) => CommitAction::RollBack(e),
            CommitEvent::Written(Ok(())) => CommitAction::RemoveStaging,
            CommitEvent::Written(Err(e)) => CommitAction::RollBack(e),
            CommitEvent::RolledBack(e) => CommitAction::Fail(e),
            CommitEvent::StagingRemoved(Ok(())) => CommitAction::LogCommitted,
            CommitEvent::StagingRemoved(Err(e)) => CommitAction::RollBack(e),
            CommitEvent::Logged(Ok(())) => {
                if self.state == TransactionState::Pending {
                    self.state = TransactionState::Committed;
                }
                CommitAction::Done
            },
            CommitEvent::Logged(Err(e)) => CommitAction::RollBack(e),
        }
    }

    /// The package directories, under `pkgs`, that packages began to be copied to, where `copied`
    /// tells it for each step.
    pub fn copied_dirs(&self, copied: &Vec<bool>) -> (r: Vec<String>)
        requires
            copied@.len() == self.plan.steps@.len(),
        ensures
            r.deep_view() == rollback_dirs(self@.plan.steps, copied@),
    {
        let ghost all = self@.plan.steps;
        let mut dirs: Vec<String> = Vec::new();
        let mut i: usize = 0;
        assert(dirs.deep_view() =~= Seq::empty());
        while i < self.plan.steps.len()
            invariant
                i <= self.plan.steps@.len(),
                copied@.len() == self.plan.steps@.len(),
                all == self.plan.steps.deep_view(),
                all == self@.plan.steps,
                dirs.deep_view() == rollback_dirs(all.take(i as int), copied@),
            decreases self.plan.steps@.len() - i,
        {
            let ghost before = dirs.deep_view();
            let step = &self.plan.steps[i];
            assert(all[i as int] == step@);
            assert(all.take(i + 1).drop_last() == all.take(i as int));
            if copied[i] {
                let dir = step.name.to_string().concat("-").concat(step.version.as_str());
                let ghost dv = dir@;
                dirs.push(dir);
                assert(dirs.deep_view() =~= before.push(dv));
            }
            i += 1;
        }
        assert(all.take(all.len() as int) == all);
        dirs
    }

    /// Rollback: delete newly installed files, restore installed.toml, restore from backups, remove
    /// backup and staging dirs. `copied` tells for each step whether copying its package to the
    /// prefix has begun, `saved` whether installed.toml was backed up. Only a pending transaction can
    /// be rolled back.
    pub fn rollback(&self, copied: &Vec<bool>, saved: bool) -> (r: Result<
        Vec<RollbackAction>,
        TransactionError,
    >)
        requires
            copied@.len() == self.plan.steps@.len(),
        ensures
            match r {
                Ok(actions) => self.state == TransactionState::Pending && actions.deep_view()
                    == rollback_actions(self@.plan.steps, copied@, saved),
                Err(e) => self.state != TransactionState::Pending && e@
                    == "rollback only allowed when state is Pending"@,
            },
    {
        if self.state != TransactionState::Pending {
            return Err(TransactionError::msg("rollback only allowed when state is Pending"));
        }
        let dirs = self.copied_dirs(copied);
        let ghost all = dirs.deep_view();
        let mut actions: Vec<RollbackAction> = Vec::new();
        let mut i: usize = 0;
        assert(actions.deep_view() =~= deletions(all.take(0)));
        while i < dirs.len()
            invariant
                i <= dirs@.len(),
                all == dirs.deep_view(),
                actions.deep_view() == deletions(all.take(i as int)),
            decreases dirs@.len() - i,
        {
            let ghost before = actions.deep_view();
            let action = RollbackAction::DeletePackage { dir_name: dirs[i].clone() };
            let ghost av = action.deep_view();
            assert(all[i as int] == dirs@[i as int]@);
            assert(av == RollbackActionView::DeletePackage { dir_name: all[i as int] });
            actions.push(action);
            assert(actions.deep_view() =~= before.push(av));
            assert(all.take(i + 1) =~= all.take(i as int).push(all[i as int]));
            assert(deletions(all.take(i + 1)) =~= deletions(all.take(i as int)).push(av));
            i += 1;
        }
        assert(all.take(all.len() as int) == all);
        if saved {
            actions.push(RollbackAction::RestoreDatabase);
        }
        actions.push(RollbackAction::RestoreBackups);
        actions.push(RollbackAction::RemoveBackups);
        actions.push(RollbackAction::RemoveStaging);
        assert(actions.deep_view() =~= rollback_actions(self@.plan.steps, copied@, saved));
        Ok(actions)
    }

    /// Ends a rollback: the transaction is rolled back. Returns the label for the log.
    pub fn rolled_back(&mut self, reason: Option<&str>) -> (r: String)
        requires
            old(self).state == TransactionState::Pending,
        ensures
            r@ == rollback_label(reason.deep_view()),
            final(self)@ == (TransactionView {
                state: TransactionState::RolledBack,
                ..old(self)@
            }),
    {
        self.state = TransactionState::RolledBack;
        match reason {
            Some(r) => "rolled_back reason=".to_owned().concat(r),
            None => "rolled_back".to_owned(),
        }
    }
}

/// Whether a directory name stays in the directory that it is put in.
pub open spec fn safe_dir(s: Text) -> bool {
    !text::contains_text(s, ".."@) && !s.contains('/') && !s.contains('\\')
}

/// The directory name of a package in a version.
pub open spec fn dir_of(name: Text, version: Text) -> Text {
    name + "-"@ + version
}

/// The package directory name of a step, unless it would allow path traversal.
pub open spec fn dir_name(step: PlanStepView) -> Result<Text, Text> {
    let s = dir_of(step.name, step.version);
    if safe_dir(s) {
        Ok(s)
    } else {
        Err("package name or version must not contain path separators or .."@)
    }
}

/// Builds the package directory name (e.g. "foo-1.0"). Errors if it would allow path traversal.
pub fn pkg_dir_name(step: &PlanStep) -> (r: Result<String, TransactionError>)
    ensures
        views::result_view(r) == dir_name(step@),
{
    let s = step.name.to_string().concat("-").concat(step.version.as_str());
    if text::has_text(s.as_str(), "..") || text::has_char(s.as_str(), '/') || text::has_char(
        s.as_str(),
        '\\',
    ) {
        return Err(
            TransactionError::msg("package name or version must not contain path separators or .."),
        );
    }
    Ok(s)
}

/// Of the links, each with its path and what it resolves to, the positions of those that point
/// into the directory.
pub open spec fn points_into(dir: Text) -> spec_fn((Text, Text)) -> bool {
    |link: (Text, Text)| paths::lies_in(link.1, dir)
}

/// The paths of the links that point into the directory, given each link with what it resolves to.
pub fn symlinks_pointing_to(links: &Vec<(String, String)>, dir: &str) -> (r: Vec<usize>)
    ensures
        r@.map_values(|i: usize| links.deep_view()[i as int]) == links.deep_view().filter(
            points_into(dir@),
        ),
        forall|k: int| 0 <= k < r@.len() ==> (#[trigger] r@[k]) < links@.len(),
        forall|a: int, b: int| 0 <= a < b < r@.len() ==> r@[a] < r@[b],
{
    let ghost all = links.deep_view();
    let ghost pred = points_into(dir@);
    let mut out: Vec<usize> = Vec::new();
    let mut i: usize = 0;
    proof {
        reveal(Seq::filter);
    }
    assert(out@.map_values(|i: usize| all[i as int]) =~= all.take(0).filter(pred));
    while i < links.len()
        invariant
            i <= links@.len(),
            all == links.deep_view(),
            pred == points_into(dir@),
            forall|k: int| 0 <= k < out@.len() ==> (#[trigger] out@[k]) < i,
            forall|a: int, b: int| 0 <= a < b < out@.len() ==> out@[a] < out@[b],
            out@.map_values(|i: usize| all[i as int]) == all.take(i as int).filter(pred),
        decreases links@.len() - i,
    {
        let ghost before = out@.map_values(|i: usize| all[i as int]);
        assert(all[i as int] == (links@[i as int].0@, links@[i as int].1@));
        assert(all.take(i + 1).drop_last() == all.take(i as int));
        proof {
            reveal(Seq::filter);
        }
        if paths::is_in(links[i].1.as_str(), dir) {
            out.push(i);
            assert(out@.map_values(|i: usize| all[i as int]) =~= before.push(all[i as int]));
        }
        i += 1;
    }
    assert(all.take(all.len() as int) == all);
    out
}

/// What stands in the staging directory for a package.
#[derive(Clone, Copy, Debug, Eq, PartialEq, Structural)]
pub enum Staged {
    /// Nothing.
    Missing,
    /// Something that is not a directory.
    NotDirectory,
    /// A directory.
    Directory,
}

/// What applying a plan step does to the prefix.
#[derive(Debug, Eq, PartialEq)]
pub enum StepAction {
    /// Back up `pkgs/<dir_name>` and the links that point into `install_path`, then remove both.
    RemovePackage { dir_name: String, install_path: String },
    /// Back up what stands in `pkgs/<dir_name>` and the links that point into it: a rollback deletes
    /// them.
    BackupPackage { dir_name: String },
    /// Copy the package from staging to `pkgs/<dir_name>`, backing up what is overwritten.
    CopyPackage { dir_name: String },
}

/// What a [`StepAction`] holds.
pub enum StepActionView {
    RemovePackage { dir_name: Text, install_path: Text },
    BackupPackage { dir_name: Text },
    CopyPackage { dir_name: Text },
}

impl DeepView for StepAction {
    type V = StepActionView;

    open spec fn deep_view(&self) -> StepActionView {
        match self {
            StepAction::RemovePackage { dir_name, install_path } => StepActionView::RemovePackage {
                dir_name: dir_name@,
                install_path: install_path@,
            },
            StepAction::BackupPackage { dir_name } => StepActionView::BackupPackage {
                dir_name: dir_name@,
            },
            StepAction::CopyPackage { dir_name } => StepActionView::CopyPackage {
                dir_name: dir_name@,
            },
        }
    }
}

/// What a step does first: a removal takes the package away, an upgrade its installed version.
pub open spec fn step_removals(
    step: PlanStepView,
    dir: Text,
    current: Seq<InstalledEntryView>,
) -> Seq<StepActionView> {
    match step.action {
        PlanAction::Remove => seq![
            StepActionView::RemovePackage { dir_name: dir, install_path: "pkgs/"@ + dir },
        ],
        PlanAction::Upgrade => match installed::entry_of(current, step.name) {
            Some(e) => seq![
                StepActionView::RemovePackage {
                    dir_name: dir_of(step.name, e.version),
                    install_path: e.install_path,
                },
            ],
            None => Seq::empty(),
        },
        PlanAction::Install => Seq::empty(),
    }
}

/// What a step does to the prefix, and the failure that follows, if there is one. A package that
/// was not staged is not copied.
pub open spec fn step_actions(
    step: PlanStepView,
    current: Seq<InstalledEntryView>,
    staged: Staged,
) -> (Seq<StepActionView>, Option<Text>) {
    match dir_name(step) {
        Err(e) => (Seq::empty(), Some(e)),
        Ok(dir) => {
            let removals = step_removals(step, dir, current);
            if step.action == PlanAction::Remove {
                (removals, None)
            } else {
                match staged {
                    Staged::Missing => (removals, None),
                    Staged::NotDirectory => (
                        removals,
                        Some("staging package path must be a directory"@),
                    ),
                    Staged::Directory => (
                        removals.push(StepActionView::BackupPackage { dir_name: dir }).push(
                            StepActionView::CopyPackage { dir_name: dir },
                        ),
                        None,
                    ),
                }
            }
        },
    }
}

/// What applying a plan step does to the prefix, in order, and the failure that follows, if there
/// is one.
pub fn apply_step(step: &PlanStep, current: &InstalledDb, staged: Staged) -> (r: (
    Vec<StepAction>,
    Option<TransactionError>,
))
    ensures
        (r.0.deep_view(), r.1.deep_view()) == step_actions(step@, current@, staged),
{
    let mut actions: Vec<StepAction> = Vec::new();
    assert(actions.deep_view() =~= Seq::empty());
    let dir = match pkg_dir_name(step) {
        Ok(dir) => dir,
        Err(e) => {
            return (actions, Some(e));
        },
    };
    match step.action {
        PlanAction::Remove => {
            let install_path = "pkgs/".to_owned().concat(dir.as_str());
            actions.push(StepAction::RemovePackage { dir_name: dir, install_path });
            assert(actions.deep_view() =~= step_removals(step@, dir@, current@));
            return (actions, None);
        },
        PlanAction::Upgrade => {
            if let Some(e) = current.get_by_name(&step.name) {
                let old_dir = step.name.to_string().concat("-").concat(e.version.as_str());
                actions.push(
                    StepAction::RemovePackage {
                        dir_name: old_dir,
                        install_path: e.install_path.clone(),
                    },
                );
            }
        },
        PlanAction::Install => {},
    }
    assert(actions.deep_view() =~= step_removals(step@, dir@, current@));
    let ghost removals = actions.deep_view();
    match staged {
        Staged::Missing => (actions, None),
        Staged::NotDirectory => (
            actions,
            Some(TransactionError::msg("staging package path must be a directory")),
        ),
        Staged::Directory => {
            let ghost dv = dir@;
            actions.push(StepAction::BackupPackage { dir_name: dir.clone() });
            actions.push(StepAction::CopyPackage { dir_name: dir });
            assert(actions.deep_view() =~= removals.push(
                StepActionView::BackupPackage { dir_name: dv },
            ).push(StepActionView::CopyPackage { dir_name: dv }));
            (actions, None)
        },
    }
}

/// What is done to take a package away from the prefix.
#[derive(Clone, Copy, Debug, Eq, PartialEq, Structural)]
pub enum RemovalAction {
    /// Copy the package directory to the backup dir.
    BackupTree,
    /// Copy the link at the position to the backup dir.
    BackupLink(usize),
    /// Remove the link at the position.
    RemoveLink(usize),
    /// Remove the package directory, if it is there.
    RemoveTree,
}

/// The actions on the links: each is backed up, then removed.
pub open spec fn link_removals(links: Seq<usize>) -> Seq<RemovalAction>
    decreases links.len(),
{
    if links.len() == 0 {
        Seq::empty()
    } else {
        link_removals(links.drop_last()).push(RemovalAction::BackupLink(links.last())).push(
            RemovalAction::RemoveLink(links.last()),
        )
    }
}

/// The actions that take a package away: nothing is removed before it is backed up.
pub open spec fn package_removal(dir_exists: bool, links: Seq<usize>) -> Seq<RemovalAction> {
    (if dir_exists {
        seq![RemovalAction::BackupTree]
    } else {
        Seq::empty()
    }) + link_removals(links) + seq![RemovalAction::RemoveTree]
}

/// Backs up a package directory and the links that point into it; then removes the links and the
/// package directory. The links are given by their positions.
pub fn backup_and_remove_pkg(dir_exists: bool, links: &Vec<usize>) -> (r: Vec<RemovalAction>)
    ensures
        r@ == package_removal(dir_exists, links@),
{
    let mut actions: Vec<RemovalAction> = Vec::new();
    if dir_exists {
        actions.push(RemovalAction::BackupTree);
    }
    let ghost start = actions@;
    let mut i: usize = 0;
    assert(start =~= if dir_exists {
        seq![RemovalAction::BackupTree]
    } else {
        Seq::empty()
    });
    assert(actions@ =~= start + link_removals(links@.take(0)));
    while i < links.len()
        invariant
            i <= links@.len(),
            actions@ == start + link_removals(links@.take(i as int)),
        decreases links@.len() - i,
    {
        assert(links@.take(i + 1).drop_last() == links@.take(i as int));
        actions.push(RemovalAction::BackupLink(links[i]));
        actions.push(RemovalAction::RemoveLink(links[i]));
        i += 1;
        assert(actions@ =~= start + link_removals(links@.take(i as int)));
    }
    assert(links@.take(links@.len() as int) == links@);
    actions.push(RemovalAction::RemoveTree);
    assert(actions@ =~= package_removal(dir_exists, links@));
    actions
}

/// The actions that back a package up.
pub open spec fn package_backup(dir_exists: bool, links: Seq<usize>) -> Seq<RemovalAction> {
    (if dir_exists {
        seq![RemovalAction::BackupTree]
    } else {
        Seq::empty()
    }) + links.map_values(|i: usize| RemovalAction::BackupLink(i))
}

/// Backs up a package directory and the links that point into it, given by their positions.
pub fn backup_pkg(dir_exists: bool, links: &Vec<usize>) -> (r: Vec<RemovalAction>)
    ensures
        r@ == package_backup(dir_exists, links@),
{
    let mut actions: Vec<RemovalAction> = Vec::new();
    if dir_exists {
        actions.push(RemovalAction::BackupTree);
    }
    let ghost start = actions@;
    let ghost all = links@.map_values(|i: usize| RemovalAction::BackupLink(i));
    let mut i: usize = 0;
    assert(start =~= if dir_exists {
        seq![RemovalAction::BackupTree]
    } else {
        Seq::empty()
    });
    assert(actions@ =~= start + all.take(0));
    while i < links.len()
        invariant
            i <= links@.len(),
            all == links@.map_values(|i: usize| RemovalAction::BackupLink(i)),
            actions@ == start + all.take(i as int),
        decreases links@.len() - i,
    {
        actions.push(RemovalAction::BackupLink(links[i]));
        assert(actions@ =~= start + all.take(i + 1));
        i += 1;
    }
    assert(all.take(all.len() as int) == all);
    actions
}

/// Whether what stands at the path, relative to the prefix, is part of the package in the directory:
/// it lies in the directory, or is a program or manual page link that points into it.
pub open spec fn belongs(dir: Text, path: Text, target: Option<Text>) -> bool {
    paths::lies_in(path, "pkgs/"@ + dir) || (linked()(path) && (target matches Some(t)
        && paths::lies_in(t, "pkgs/"@ + dir)))
}

/// Whether what stands at the path is part of a package in one of the directories.
pub open spec fn belongs_to_any(dirs: Seq<Text>, path: Text, target: Option<Text>) -> bool {
    exists|i: int| 0 <= i < dirs.len() && belongs(#[trigger] dirs[i], path, target)
}

/// Whether a file at the path must be backed up before it is removed or overwritten, where `target`
/// is what it points to, if it is a link, and `copied` are the package directories that copying has
/// begun to. What was backed up before stays as it is, and what is part of a copied package is new:
/// a rollback deletes it.
pub fn needs_backup(path: &str, target: Option<&str>, backed_up: bool, copied: &Vec<String>) -> (r:
    bool)
    ensures
        r == (!backed_up && !belongs_to_any(copied.deep_view(), path@, target.deep_view())),
{
    if backed_up {
        return false;
    }
    let ghost all = copied.deep_view();
    let may_link = text::starts_with(path, "bin/") || text::starts_with(path, "share/man/");
    let mut i: usize = 0;
    while i < copied.len()
        invariant
            i <= copied@.len(),
            !backed_up,
            all == copied.deep_view(),
            may_link == linked()(path@),
            forall|j: int| 0 <= j < i ==> !belongs(#[trigger] all[j], path@, target.deep_view()),
        decreases copied@.len() - i,
    {
        assert(all[i as int] == copied@[i as int]@);
        let dir = "pkgs/".to_owned().concat(copied[i].as_str());
        let points = match target {
            Some(t) => may_link && paths::is_in(t, dir.as_str()),
            None => false,
        };
        if points || paths::is_in(path, dir.as_str()) {
            assert(belongs(all[i as int], path@, target.deep_view()));
            return false;
        }
        i += 1;
    }
    true
}

/// What an entry of a directory tree is. Links are not followed.
#[derive(Clone, Copy, Debug, Eq, PartialEq, Structural)]
pub enum EntryKind {
    Directory,
    File,
    Link,
}

/// An entry of a directory tree: its path below the top, with `/` between the names, and what it
/// is. A tree is listed with each directory before its entries.
#[derive(Debug, Eq, PartialEq)]
pub struct TreeEntry {
    pub path: String,
    pub kind: EntryKind,
}

/// What a [`TreeEntry`] holds.
pub struct TreeEntryView {
    pub path: Text,
    pub kind: EntryKind,
}

impl DeepView for TreeEntry {
    type V = TreeEntryView;

    open spec fn deep_view(&self) -> TreeEntryView {
        TreeEntryView { path: self.path@, kind: self.kind }
    }
}

impl View for TreeEntry {
    type V = TreeEntryView;

    open spec fn view(&self) -> TreeEntryView {
        self.deep_view()
    }
}

/// Maximum tree depth when listing, copying or restoring (prevents symlink loops / stack
/// overflow).
pub const TREE_MAX_DEPTH: usize = 256;

/// How deep below the top the path lies.
pub open spec fn depth(path: Text) -> nat {
    text::split(path, '/').len()
}

/// Whether the entry is a directory that lies too deep to be entered.
pub open spec fn too_deep(e: TreeEntryView) -> bool {
    e.kind == EntryKind::Directory && depth(e.path) >= TREE_MAX_DEPTH
}

/// Whether the entry is a directory that lies too deep to be entered.
pub fn is_too_deep(e: &TreeEntry) -> (r: bool)
    ensures
        r == too_deep(e@),
{
    match e.kind {
        EntryKind::Directory => text::split_chars(e.path.as_str(), '/').len() >= TREE_MAX_DEPTH,
        _ => false,
    }
}

/// The relative paths of all files and links in the tree.
pub open spec fn relative_files(entries: Seq<TreeEntryView>) -> Result<Seq<Text>, Text>
    decreases entries.len(),
{
    if entries.len() == 0 {
        Ok(Seq::empty())
    } else {
        match relative_files(entries.drop_last()) {
            Err(e) => Err(e),
            Ok(front) => if too_deep(entries.last()) {
                Err("directory tree too deep when listing package files"@)
            } else if entries.last().kind == EntryKind::Directory {
                Ok(front)
            } else {
                Ok(front.push(text::replaced(entries.last().path, '\\', '/')))
            },
        }
    }
}

/// The relative paths of all files and links in the tree, with `/` as the separator.
pub fn list_relative_files(entries: &Vec<TreeEntry>) -> (r: Result<Vec<String>, TransactionError>)
    ensures
        views::result_view(r) == relative_files(entries.deep_view()),
{
    let ghost all = entries.deep_view();
    let mut out: Vec<String> = Vec::new();
    let mut i: usize = 0;
    assert(out.deep_view() =~= Seq::empty());
    while i < entries.len()
        invariant
            i <= entries@.len(),
            all == entries.deep_view(),
            relative_files(all.take(i as int)) == Ok::<_, Text>(out.deep_view()),
        decreases entries@.len() - i,
    {
        let ghost before = out.deep_view();
        assert(all[i as int] == entries@[i as int]@);
        assert(all.take(i + 1).drop_last() == all.take(i as int));
        if is_too_deep(&entries[i]) {
            proof {
                lemma_files_error(all, i + 1);
            }
            return Err(
                TransactionError::msg("directory tree too deep when listing package files"),
            );
        }
        if entries[i].kind != EntryKind::Directory {
            out.push(text::replace_char(entries[i].path.as_str(), '\\', '/'));
            assert(out.deep_view() =~= before.push(
                text::replaced(all[i as int].path, '\\', '/'),
            ));
        }
        i += 1;
    }
    assert(all.take(all.len() as int) == all);
    Ok(out)
}

proof fn lemma_files_error(entries: Seq<TreeEntryView>, n: int)
    requires
        0 <= n <= entries.len(),
        relative_files(entries.take(n)) is Err,
    ensures
        relative_files(entries) == relative_files(entries.take(n)),
    decreases entries.len(),
{
    if n == entries.len() {
        assert(entries.take(n) == entries);
    } else {
        assert(entries.drop_last().take(n) == entries.take(n));
        lemma_files_error(entries.drop_last(), n);
    }
}

/// What to do with the entry of a tree at a position: make the directory, or copy the file or the
/// link.
#[derive(Clone, Copy, Debug, Eq, PartialEq, Structural)]
pub enum TreeAction {
    MakeDirectory(usize),
    CopyFile(usize),
    CopyLink(usize),
}

/// What to do with an entry.
pub open spec fn tree_action(kind: EntryKind, i: usize) -> TreeAction {
    match kind {
        EntryKind::Directory => TreeAction::MakeDirectory(i),
        EntryKind::File => TreeAction::CopyFile(i),
        EntryKind::Link => TreeAction::CopyLink(i),
    }
}

/// The actions of copying a tree: entry by entry, up to a directory that lies too deep, which is
/// made but not entered. Whether that happened.
pub open spec fn copied_tree(entries: Seq<TreeEntryView>) -> (Seq<TreeAction>, bool)
    decreases entries.len(),
{
    if entries.len() == 0 {
        (Seq::empty(), false)
    } else {
        let (front, stopped) = copied_tree(entries.drop_last());
        if stopped {
            (front, true)
        } else {
            let i = (entries.len() - 1) as usize;
            (front.push(tree_action(entries.last().kind, i)), too_deep(entries.last()))
        }
    }
}

/// The actions of copying a package from staging, in order, and the failure that follows, if there
/// is one. What a copied file or link overwrites is backed up first.
pub fn copy_tree_with_backup(entries: &Vec<TreeEntry>) -> (r: (
    Vec<TreeAction>,
    Option<TransactionError>,
))
    ensures
        r.0@ == copied_tree(entries.deep_view()).0,
        match r.1 {
            Some(e) => copied_tree(entries.deep_view()).1 && e@
                == "staging tree too deep when copying package files"@,
            None => !copied_tree(entries.deep_view()).1,
        },
{
    let (actions, stopped) = tree_actions(entries);
    if stopped {
        (
            actions,
            Some(TransactionError::msg("staging tree too deep when copying package files")),
        )
    } else {
        (actions, None)
    }
}

fn tree_actions(entries: &Vec<TreeEntry>) -> (r: (Vec<TreeAction>, bool))
    ensures
        (r.0@, r.1) == copied_tree(entries.deep_view()),
{
    let ghost all = entries.deep_view();
    let mut actions: Vec<TreeAction> = Vec::new();
    let mut i: usize = 0;
    assert(actions@ =~= Seq::empty());
    while i < entries.len()
        invariant
            i <= entries@.len(),
            all == entries.deep_view(),
            copied_tree(all.take(i as int)) == (actions@, false),
        decreases entries@.len() - i,
    {
        assert(all[i as int] == entries@[i as int]@);
        assert(all.take(i + 1).drop_last() == all.take(i as int));
        let action = match entries[i].kind {
            EntryKind::Directory => TreeAction::MakeDirectory(i),
            EntryKind::File => TreeAction::CopyFile(i),
            EntryKind::Link => TreeAction::CopyLink(i),
        };
        actions.push(action);
        if is_too_deep(&entries[i]) {
            proof {
                lemma_copy_stops(all, i + 1);
            }
            return (actions, true);
        }
        i += 1;
    }
    assert(all.take(all.len() as int) == all);
    (actions, false)
}

proof fn lemma_copy_stops(entries: Seq<TreeEntryView>, n: int)
    requires
        0 <= n <= entries.len(),
        copied_tree(entries.take(n)).1,
    ensures
        copied_tree(entries) == copied_tree(entries.take(n)),
    decreases entries.len(),
{
    if n == entries.len() {
        assert(entries.take(n) == entries);
    } else {
        assert(entries.drop_last().take(n) == entries.take(n));
        lemma_copy_stops(entries.drop_last(), n);
    }
}

/// The actions of restoring a backup tree, entry by entry, and the failure that stops it, if there
/// is one: a path that leads upwards, or a directory that lies too deep.
pub open spec fn restored_tree(entries: Seq<TreeEntryView>) -> (Seq<TreeAction>, Option<Text>)
    decreases entries.len(),
{
    if entries.len() == 0 {
        (Seq::empty(), None)
    } else {
        let (front, failure) = restored_tree(entries.drop_last());
        let last = entries.last();
        let i = (entries.len() - 1) as usize;
        if failure is Some {
            (front, failure)
        } else if text::split(last.path, '/').contains(".."@) {
            (front, Some("transaction io: backup path must not contain .."@))
        } else if too_deep(last) {
            (
                front.push(tree_action(last.kind, i)),
                Some("transaction io: backup tree too deep when restoring"@),
            )
        } else {
            (front.push(tree_action(last.kind, i)), None)
        }
    }
}

/// The actions of restoring a backup tree, in order, and the failure that follows, if there is one.
pub fn restore_backup_dir(entries: &Vec<TreeEntry>) -> (r: (
    Vec<TreeAction>,
    Option<TransactionError>,
))
    ensures
        (r.0@, r.1.deep_view()) == restored_tree(entries.deep_view()),
{
    let ghost all = entries.deep_view();
    let mut actions: Vec<TreeAction> = Vec::new();
    let mut i: usize = 0;
    assert(actions@ =~= Seq::empty());
    while i < entries.len()
        invariant
            i <= entries@.len(),
            all == entries.deep_view(),
            restored_tree(all.take(i as int)) == (actions@, None::<Text>),
        decreases entries@.len() - i,
    {
        assert(all[i as int] == entries@[i as int]@);
        assert(all.take(i + 1).drop_last() == all.take(i as int));
        let pieces = text::split_chars(entries[i].path.as_str(), '/');
        if text::list_contains(&pieces, "..") {
            proof {
                reveal_strlit("transaction io: ");
                reveal_strlit("backup path must not contain ..");
                reveal_strlit("transaction io: backup path must not contain ..");
                assert("transaction io: "@ + "backup path must not contain .."@
                    =~= "transaction io: backup path must not contain .."@);
                lemma_restore_stops(all, i + 1);
            }
            return (actions, Some(TransactionError::io_err("backup path must not contain ..")));
        }
        let action = match entries[i].kind {
            EntryKind::Directory => TreeAction::MakeDirectory(i),
            EntryKind::File => TreeAction::CopyFile(i),
            EntryKind::Link => TreeAction::CopyLink(i),
        };
        actions.push(action);
        if is_too_deep(&entries[i]) {
            proof {
                reveal_strlit("transaction io: ");
                reveal_strlit("backup tree too deep when restoring");
                reveal_strlit("transaction io: backup tree too deep when restoring");
                assert("transaction io: "@ + "backup tree too deep when restoring"@
                    =~= "transaction io: backup tree too deep when restoring"@);
                lemma_restore_stops(all, i + 1);
            }
            return (
                actions,
                Some(TransactionError::io_err("backup tree too deep when restoring")),
            );
        }
        i += 1;
    }
    assert(all.take(all.len() as int) == all);
    (actions, None)
}

proof fn lemma_restore_stops(entries: Seq<TreeEntryView>, n: int)
    requires
        0 <= n <= entries.len(),
        restored_tree(entries.take(n)).1 is Some,
    ensures
        restored_tree(entries) == restored_tree(entries.take(n)),
    decreases entries.len(),
{
    if n == entries.len() {
        assert(entries.take(n) == entries);
    } else {
        assert(entries.drop_last().take(n) == entries.take(n));
        lemma_restore_stops(entries.drop_last(), n);
    }
}

/// The files of a staged package: none where it was not staged.
pub open spec fn staged_files(tree: Option<Seq<TreeEntryView>>) -> Result<Seq<Text>, Text> {
    match tree {
        Some(entries) => relative_files(entries),
        None => Ok(Seq::empty()),
    }
}

/// The entry of the database for a step.
pub open spec fn entry_for(step: PlanStepView, dir: Text, files: Seq<Text>) -> InstalledEntryView {
    InstalledEntryView {
        name: step.name,
        version: step.version,
        revision: step.revision,
        install_path: "pkgs/"@ + dir,
        files,
        file_checksums: Seq::empty(),
    }
}

/// The installed packages by name after the steps, with the staged tree of each. A removed package
/// is gone; any other step sets the entry of its package.
pub open spec fn new_entries(
    current: Seq<InstalledEntryView>,
    steps: Seq<PlanStepView>,
    trees: Seq<Option<Seq<TreeEntryView>>>,
) -> Result<Seq<(Text, InstalledEntryView)>, Text>
    decreases steps.len(),
{
    if steps.len() == 0 {
        Ok(installed::by_name(current))
    } else {
        let step = steps.last();
        match new_entries(current, steps.drop_last(), trees) {
            Err(e) => Err(e),
            Ok(t) => if step.action == PlanAction::Remove {
                Ok(table::without(t, step.name))
            } else {
                match (dir_name(step), staged_files(trees[steps.len() - 1])) {
                    (Err(e), _) => Err(e),
                    (Ok(_), Err(e)) => Err(e),
                    (Ok(dir), Ok(files)) => Ok(
                        table::put(t, step.name, entry_for(step, dir, files)),
                    ),
                }
            },
        }
    }
}

/// The new database of installed packages after the plan, where `trees` holds for each step the
/// tree that was staged for it, if there is one.
pub fn compute_new_installed_db(
    current: &InstalledDb,
    plan: &Plan,
    trees: &Vec<Option<Vec<TreeEntry>>>,
) -> (r: Result<InstalledDb, TransactionError>)
    requires
        trees@.len() == plan.steps@.len(),
    ensures
        match r {
            Ok(db) => new_entries(current@, plan@.steps, trees.deep_view()) matches Ok(t) && db@
                == table::values(t),
            Err(e) => new_entries(current@, plan@.steps, trees.deep_view()) == Err::<
                Seq<(Text, InstalledEntryView)>,
                Text,
            >(e@),
        },
{
    let ghost steps = plan@.steps;
    let ghost tv = trees.deep_view();
    let entries = current.list_all();
    let mut by_name: Vec<(PackageName, InstalledEntry)> = index_entries(entries);
    let mut i: usize = 0;
    while i < plan.steps.len()
        invariant
            i <= plan.steps@.len(),
            trees@.len() == plan.steps@.len(),
            steps == plan.steps.deep_view(),
            steps == plan@.steps,
            tv == trees.deep_view(),
            table::sorted(by_name.deep_view()),
            new_entries(current@, steps.take(i as int), tv) == Ok::<_, Text>(by_name.deep_view()),
        decreases plan.steps@.len() - i,
    {
        let step = &plan.steps[i];
        assert(steps[i as int] == step@);
        assert(steps.take(i + 1).drop_last() == steps.take(i as int));
        assert(tv[i as int] == trees@[i as int].deep_view());
        if step.action == PlanAction::Remove {
            table::unset(&mut by_name, &step.name);
        } else {
            let dir = match pkg_dir_name(step) {
                Ok(dir) => dir,
                Err(e) => {
                    proof {
                        lemma_entries_error(current@, steps, tv, i + 1);
                    }
                    return Err(e);
                },
            };
            let files = match &trees[i] {
                Some(tree) => list_relative_files(tree),
                None => {
                    let none: Vec<String> = Vec::new();
                    assert(none.deep_view() =~= Seq::empty());
                    Ok(none)
                },
            };
            let files = match files {
                Ok(files) => files,
                Err(e) => {
                    proof {
                        lemma_entries_error(current@, steps, tv, i + 1);
                    }
                    return Err(e);
                },
            };
            let entry = InstalledEntry {
                name: step.name.clone(),
                version: step.version.clone(),
                revision: step.revision,
                install_path: "pkgs/".to_owned().concat(dir.as_str()),
                files,
                file_checksums: Vec::new(),
            };
            assert(entry.file_checksums.deep_view() =~= Seq::empty());
            assert(entry@ == entry_for(step@, dir@, files.deep_view()));
            table::set(&mut by_name, step.name.clone(), entry);
        }
        i += 1;
    }
    assert(steps.take(steps.len() as int) == steps);
    let ghost t = by_name.deep_view();
    let mut out: Vec<InstalledEntry> = Vec::new();
    let mut k: usize = 0;
    while k < by_name.len()
        invariant
            k <= by_name@.len(),
            t == by_name.deep_view(),
            out@.len() == k,
            forall|j: int| 0 <= j < k ==> (#[trigger] out@[j]).deep_view() == t[j].1,
        decreases by_name@.len() - k,
    {
        assert(t[k as int].1 == by_name@[k as int].1.deep_view());
        out.push(by_name[k].1.clone());
        k += 1;
    }
    assert(out.deep_view() =~= table::values(t));
    proof {
        lemma_new_entries(current@, steps, tv);
        installed::lemma_by_name_values(t);
    }
    Ok(InstalledDb::from_entries(out))
}

fn index_entries(entries: &Vec<InstalledEntry>) -> (r: Vec<(PackageName, InstalledEntry)>)
    ensures
        r.deep_view() == installed::by_name(entries.deep_view()),
        table::sorted(r.deep_view()),
{
    let ghost all = entries.deep_view();
    let mut index: Vec<(PackageName, InstalledEntry)> = Vec::new();
    let mut i: usize = 0;
    assert(index.deep_view() =~= Seq::empty());
    while i < entries.len()
        invariant
            i <= entries@.len(),
            all == entries.deep_view(),
            table::sorted(index.deep_view()),
            index.deep_view() == installed::by_name(all.take(i as int)),
        decreases entries@.len() - i,
    {
        let e = entries[i].clone();
        assert(all.take(i + 1).drop_last() == all.take(i as int));
        table::set(&mut index, e.name.clone(), e);
        i += 1;
    }
    assert(all.take(all.len() as int) == all);
    index
}

proof fn lemma_entries_error(
    current: Seq<InstalledEntryView>,
    steps: Seq<PlanStepView>,
    trees: Seq<Option<Seq<TreeEntryView>>>,
    n: int,
)
    requires
        0 <= n <= steps.len(),
        new_entries(current, steps.take(n), trees) is Err,
    ensures
        new_entries(current, steps, trees) == new_entries(current, steps.take(n), trees),
    decreases steps.len(),
{
    if n == steps.len() {
        assert(steps.take(n) == steps);
    } else {
        assert(steps.drop_last().take(n) == steps.take(n));
        lemma_entries_error(current, steps.drop_last(), trees, n);
    }
}

/// The new entries are a table in which every entry stands under its own name.
proof fn lemma_new_entries(
    current: Seq<InstalledEntryView>,
    steps: Seq<PlanStepView>,
    trees: Seq<Option<Seq<TreeEntryView>>>,
)
    ensures
        new_entries(current, steps, trees) matches Ok(t) ==> table::sorted(t) && forall|i: int|
            0 <= i < t.len() ==> (#[trigger] t[i]).0 == t[i].1.name,
    decreases steps.len(),
{
    if steps.len() == 0 {
        installed::lemma_by_name(current);
    } else {
        let step = steps.last();
        lemma_new_entries(current, steps.drop_last(), trees);
        if let Ok(t) = new_entries(current, steps, trees) {
            let s = new_entries(current, steps.drop_last(), trees)->Ok_0;
            if step.action == PlanAction::Remove {
                table::lemma_without(s, step.name);
            } else {
                let e = entry_for(
                    step,
                    dir_name(step)->Ok_0,
                    staged_files(trees[steps.len() - 1])->Ok_0,
                );
                table::lemma_put(s, step.name, e);
            }
            assert forall|i: int| 0 <= i < t.len() implies (#[trigger] t[i]).0
                == t[i].1.name by {
                table::lemma_get(t, i);
                assert(table::has(t, t[i].0));
                if step.action == PlanAction::Remove || t[i].0 != step.name {
                    assert(table::has(s, t[i].0));
                    let k = table::lemma_index(s, t[i].0);
                    assert(s[k].0 == s[k].1.name);
                }
            }
        }
    }
}

/// Whether one of the steps is about the package.
pub open spec fn touches(steps: Seq<PlanStepView>, name: Text) -> bool {
    exists|i: int| 0 <= i < steps.len() && (#[trigger] steps[i]).name == name
}

/// A committed plan leaves every package alone that none of its steps is about.
pub proof fn lemma_others_untouched(
    current: Seq<InstalledEntryView>,
    steps: Seq<PlanStepView>,
    trees: Seq<Option<Seq<TreeEntryView>>>,
    name: Text,
)
    requires
        installed::names_ascend(current),
        new_entries(current, steps, trees) is Ok,
        !touches(steps, name),
    ensures
        installed::entry_of(table::values(new_entries(current, steps, trees)->Ok_0), name)
            == installed::entry_of(current, name),
{
    lemma_new_entries(current, steps, trees);
    installed::lemma_entry_of_values(new_entries(current, steps, trees)->Ok_0, name);
    installed::lemma_database_index(current);
    lemma_untouched_in_table(current, steps, trees, name);
}

proof fn lemma_untouched_in_table(
    current: Seq<InstalledEntryView>,
    steps: Seq<PlanStepView>,
    trees: Seq<Option<Seq<TreeEntryView>>>,
    name: Text,
)
    requires
        new_entries(current, steps, trees) is Ok,
        !touches(steps, name),
    ensures
        table::get(new_entries(current, steps, trees)->Ok_0, name) == table::get(
            installed::by_name(current),
            name,
        ),
    decreases steps.len(),
{
    if steps.len() > 0 {
        let d = steps.drop_last();
        let step = steps.last();
        assert(steps[steps.len() - 1] == step);
        assert(!touches(d, name)) by {
            if touches(d, name) {
                let i = choose|i: int| 0 <= i < d.len() && (#[trigger] d[i]).name == name;
                assert(steps[i].name == name);
            }
        }
        lemma_new_entries(current, d, trees);
        lemma_untouched_in_table(current, d, trees, name);
        let s = new_entries(current, d, trees)->Ok_0;
        if step.action == PlanAction::Remove {
            table::lemma_without(s, step.name);
        } else {
            let e = entry_for(
                step,
                dir_name(step)->Ok_0,
                staged_files(trees[steps.len() - 1])->Ok_0,
            );
            table::lemma_put(s, step.name, e);
        }
    }
}

/// After a committed plan the last step about a package decides: a removed package is not
/// installed, any other has the version and revision of the step, in its directory.
pub proof fn lemma_step_recorded(
    current: Seq<InstalledEntryView>,
    steps: Seq<PlanStepView>,
    trees: Seq<Option<Seq<TreeEntryView>>>,
    i: int,
)
    requires
        new_entries(current, steps, trees) is Ok,
        0 <= i < steps.len(),
        forall|j: int| i < j < steps.len() ==> (#[trigger] steps[j]).name != steps[i].name,
    ensures
        ({
            let after = table::values(new_entries(current, steps, trees)->Ok_0);
            let step = steps[i];
            if step.action == PlanAction::Remove {
                !installed::is_installed(after, step.name)
            } else {
                installed::entry_of(after, step.name) == Some(
                    entry_for(step, dir_name(step)->Ok_0, staged_files(trees[i])->Ok_0),
                )
            }
        }),
{
    let t = new_entries(current, steps, trees)->Ok_0;
    let step = steps[i];
    lemma_new_entries(current, steps, trees);
    installed::lemma_entry_of_values(t, step.name);
    installed::lemma_entry_of(table::values(t), step.name);
    lemma_step_in_table(current, steps, trees, i);
}

proof fn lemma_step_in_table(
    current: Seq<InstalledEntryView>,
    steps: Seq<PlanStepView>,
    trees: Seq<Option<Seq<TreeEntryView>>>,
    i: int,
)
    requires
        new_entries(current, steps, trees) is Ok,
        0 <= i < steps.len(),
        forall|j: int| i < j < steps.len() ==> (#[trigger] steps[j]).name != steps[i].name,
    ensures
        table::get(new_entries(current, steps, trees)->Ok_0, steps[i].name) == if steps[i].action
            == PlanAction::Remove {
            None
        } else {
            Some(entry_for(steps[i], dir_name(steps[i])->Ok_0, staged_files(trees[i])->Ok_0))
        },
    decreases steps.len(),
{
    let d = steps.drop_last();
    let last = steps.last();
    lemma_new_entries(current, d, trees);
    let s = new_entries(current, d, trees)->Ok_0;
    assert(last == steps[steps.len() - 1]);
    if last.action == PlanAction::Remove {
        table::lemma_without(s, last.name);
    } else {
        let e = entry_for(last, dir_name(last)->Ok_0, staged_files(trees[steps.len() - 1])->Ok_0);
        table::lemma_put(s, last.name, e);
    }
    if i == steps.len() - 1 {
        let t = new_entries(current, steps, trees)->Ok_0;
        if last.action == PlanAction::Remove {
            assert(!table::has(t, last.name));
        }
    } else {
        assert(d[i] == steps[i]);
        assert forall|j: int| i < j < d.len() implies (#[trigger] d[j]).name != d[i].name by {
            assert(d[j] == steps[j]);
        }
        lemma_step_in_table(current, d, trees, i);
        assert(last.name != steps[i].name);
    }
}

/// Whether a file of a package gets a link in the prefix: programs and manual pages do.
pub open spec fn linked() -> spec_fn(Text) -> bool {
    |file: Text| "bin/"@.is_prefix_of(file) || "share/man/"@.is_prefix_of(file)
}

/// A link in the prefix, at the path of the file, to the file in the package directory; both
/// relative to the prefix.
pub open spec fn link_to(dir: Text, file: Text) -> (Text, Text) {
    (file, "pkgs/"@ + dir + "/"@ + file)
}

/// The links for the files of a package.
pub open spec fn package_links(dir: Text, files: Seq<Text>) -> Seq<(Text, Text)> {
    files.filter(linked()).map_values(|file: Text| link_to(dir, file))
}

/// The links to make in the prefix for the files of a package: for programs under `bin/` and
/// manual pages under `share/man/`, where the link stands and what it points to. What stands there
/// is backed up and replaced.
pub fn links_for_package(dir: &str, files: &Vec<String>) -> (r: Vec<(String, String)>)
    ensures
        r.deep_view() == package_links(dir@, files.deep_view()),
{
    let ghost all = files.deep_view();
    let mut out: Vec<(String, String)> = Vec::new();
    let mut i: usize = 0;
    proof {
        reveal(Seq::filter);
    }
    assert(out.deep_view() =~= package_links(dir@, all.take(0)));
    while i < files.len()
        invariant
            i <= files@.len(),
            all == files.deep_view(),
            out.deep_view() == package_links(dir@, all.take(i as int)),
        decreases files@.len() - i,
    {
        let ghost before = out.deep_view();
        assert(all[i as int] == files@[i as int]@);
        assert(all.take(i + 1).drop_last() == all.take(i as int));
        proof {
            reveal(Seq::filter);
        }
        let file = files[i].as_str();
        if text::starts_with(file, "bin/") || text::starts_with(file, "share/man/") {
            let target = "pkgs/".to_owned().concat(dir).concat("/").concat(file);
            out.push((file.to_owned(), target));
            assert(out.deep_view() =~= before.push(link_to(dir@, all[i as int])));
            assert(out.deep_view() =~= package_links(dir@, all.take(i + 1)));
        }
        i += 1;
    }
    assert(all.take(all.len() as int) == all);
    out
}

/// Every link of a package points into the directory of the package, so that it is found again
/// when the package is removed or upgraded.
pub proof fn lemma_links_point_into_package(
    prefix: Text,
    dir: Text,
    files: Seq<Text>,
    i: int,
)
    requires
        0 <= i < package_links(dir, files).len(),
    ensures
        paths::lies_in(
            text::path_join(prefix, package_links(dir, files)[i].1),
            text::path_join(prefix, "pkgs/"@ + dir),
        ),
{
    reveal_strlit("pkgs/");
    let chosen = files.filter(linked());
    let base = text::path_join(prefix, "pkgs/"@ + dir);
    let target = package_links(dir, files)[i].1;
    assert(target == "pkgs/"@ + dir + "/"@ + chosen[i]);
    assert(text::path_join(prefix, target) =~= base + "/"@ + chosen[i]);
    paths::lemma_below(base, chosen[i]);
}

/// A transaction leaves the pending state at most once: a commit only ends in the committed state,
/// a rollback only begins in the pending one.
pub proof fn lemma_state_changes(state: TransactionState, event: CommitEventView)
    ensures
        state != TransactionState::Pending ==> committed_state(state, event) == state,
        committed_state(state, event) != state ==> committed_state(state, event)
            == TransactionState::Committed,
        state != TransactionState::Pending ==> commit_start(state) is Fail,
{
}

/// Whether the event tells of something that was done to the prefix.
pub open spec fn after_saving(event: CommitEventView) -> bool {
    event is Saved || event is Applied || event is Written || event is StagingRemoved || event
        is Logged
}

/// Whether the event tells of a failure.
pub open spec fn failed(event: CommitEventView) -> bool {
    match event {
        CommitEventView::Locked(r) => r is Err,
        CommitEventView::Loaded(r) => r is Err,
        CommitEventView::Saved(r) => r is Err,
        CommitEventView::Applied(r) => r is Err,
        CommitEventView::Written(r) => r is Err,
        CommitEventView::RolledBack(_) => true,
        CommitEventView::StagingRemoved(r) => r is Err,
        CommitEventView::Logged(r) => r is Err,
    }
}

/// Any failure once something was done to the prefix is rolled back, in the pending state, and
/// nothing else is; the commit then fails with what caused it. A commit ends well only after the new
/// state was logged, and then in the committed state.
pub proof fn lemma_commit_course(event: CommitEventView)
    ensures
        commit_next(event) is RollBack <==> after_saving(event) && failed(event),
        commit_next(event) is RollBack ==> committed_state(TransactionState::Pending, event)
            == TransactionState::Pending,
        commit_next(event) is Fail ==> failed(event) && !after_saving(event),
        commit_next(event) matches CommitActionView::RollBack(e) ==> commit_next(
            CommitEventView::RolledBack(e),
        ) == CommitActionView::Fail(e),
        commit_next(event) is Done <==> (event matches CommitEventView::Logged(r) && r is Ok),
        commit_next(event) is Done <==> committed_state(TransactionState::Pending, event)
            == TransactionState::Committed,
{
}

} // verus!
