//! Requests to the resolver and the plans it makes.

use vstd::prelude::*;
use vstd::string::*;

use crate::package_name::PackageName;
use crate::source::{Source, SourceView};
use crate::storage::lockfile::LockfilePackageView;
use crate::storage::{Lockfile, LockfilePackage};
use crate::text::Text;
use crate::version::Version;

verus! {

/// User intent: install, upgrade, upgrade all, or remove a package by name.
#[derive(Debug, Eq, PartialEq)]
pub enum Request {
    Install { name: PackageName },
    Upgrade { name: PackageName },
    /// Upgrade every installed package to latest available (within lockfile if strict).
    UpgradeAll,
    /// Remove a package; fails if dependents exist unless force is true.
    Remove {
        name: PackageName,
        /// If true, remove anyway and leave broken dependents.
        force: bool,
    },
}

/// What a [`Request`] holds.
pub enum RequestView {
    Install { name: Text },
    Upgrade { name: Text },
    UpgradeAll,
    Remove { name: Text, force: bool },
}

impl DeepView for Request {
    type V = RequestView;

    open spec fn deep_view(&self) -> RequestView {
        match self {
            Request::Install { name } => RequestView::Install { name: name@ },
            Request::Upgrade { name } => RequestView::Upgrade { name: name@ },
            Request::UpgradeAll => RequestView::UpgradeAll,
            Request::Remove { name, force } => RequestView::Remove { name: name@, force: *force },
        }
    }
}

impl Clone for Request {
    fn clone(&self) -> (r: Self)
        ensures
            r.deep_view() == self.deep_view(),
    {
        match self {
            Request::Install { name } => Request::Install { name: name.clone() },
            Request::Upgrade { name } => Request::Upgrade { name: name.clone() },
            Request::UpgradeAll => Request::UpgradeAll,
            Request::Remove { name, force } => Request::Remove {
                name: name.clone(),
                force: *force,
            },
        }
    }
}

/// Action to perform for this package in the plan.
#[derive(Clone, Copy, Debug, Eq, PartialEq, Structural)]
pub enum PlanAction {
    Install,
    Upgrade,
    Remove,
}

/// One step in the execution plan: package identity, revision, source, files, and action.
#[derive(Debug, Eq, PartialEq)]
pub struct PlanStep {
    pub name: PackageName,
    pub version: Version,
    pub revision: u32,
    pub source: Source,
    /// Relative paths to install from the unpacked artifact (e.g. `bin/helix`, `share/helix/*`).
    pub files: Vec<String>,
    pub action: PlanAction,
}

/// What a [`PlanStep`] holds.
pub struct PlanStepView {
    pub name: Text,
    pub version: Text,
    pub revision: u32,
    pub source: SourceView,
    pub files: Seq<Text>,
    pub action: PlanAction,
}

impl DeepView for PlanStep {
    type V = PlanStepView;

    open spec fn deep_view(&self) -> PlanStepView {
        PlanStepView {
            name: self.name@,
            version: self.version@,
            revision: self.revision,
            source: self.source@,
            files: self.files.deep_view(),
            action: self.action,
        }
    }
}

impl View for PlanStep {
    type V = PlanStepView;

    open spec fn view(&self) -> PlanStepView {
        self.deep_view()
    }
}

impl Clone for PlanStep {
    fn clone(&self) -> (r: Self)
        ensures
            r@ == self@,
    {
        PlanStep {
            name: self.name.clone(),
            version: self.version.clone(),
            revision: self.revision,
            source: self.source.clone(),
            files: self.files.clone(),
            action: self.action,
        }
    }
}

/// Ordered list of package actions (dependencies before dependents).
/// Dependencies satisfied by system packages are listed in `satisfied_by_system`, not in `steps`.
#[derive(Debug, Eq, PartialEq)]
pub struct Plan {
    pub steps: Vec<PlanStep>,
    /// Dependencies satisfied by system (e.g. dpkg) packages; never proposed for install.
    pub satisfied_by_system: Vec<(PackageName, Version)>,
}

/// What a [`Plan`] holds.
pub struct PlanView {
    pub steps: Seq<PlanStepView>,
    pub satisfied_by_system: Seq<(Text, Text)>,
}

impl DeepView for Plan {
    type V = PlanView;

    open spec fn deep_view(&self) -> PlanView {
        PlanView {
            steps: self.steps.deep_view(),
            satisfied_by_system: self.satisfied_by_system.deep_view(),
        }
    }
}

impl View for Plan {
    type V = PlanView;

    open spec fn view(&self) -> PlanView {
        self.deep_view()
    }
}

impl Clone for Plan {
    fn clone(&self) -> (r: Self)
        ensures
            r@ == self@,
    {
        let mut satisfied: Vec<(PackageName, Version)> = Vec::new();
        let mut i: usize = 0;
        while i < self.satisfied_by_system.len()
            invariant
                i <= self.satisfied_by_system@.len(),
                satisfied@.len() == i,
                forall|j: int|
                    0 <= j < i ==> (#[trigger] satisfied@[j]).deep_view()
                        == self.satisfied_by_system@[j].deep_view(),
            decreases self.satisfied_by_system@.len() - i,
        {
            let (name, version) = &self.satisfied_by_system[i];
            satisfied.push((name.clone(), version.clone()));
            i += 1;
        }
        assert(satisfied.deep_view() =~= self.satisfied_by_system.deep_view());
        Plan { steps: self.steps.clone(), satisfied_by_system: satisfied }
    }
}

impl Default for Plan {
    fn default() -> (r: Self)
        ensures
            r@ == (PlanView { steps: Seq::empty(), satisfied_by_system: Seq::empty() }),
    {
        let r = Plan { steps: Vec::new(), satisfied_by_system: Vec::new() };
        assert(r.steps.deep_view() =~= Seq::empty());
        assert(r.satisfied_by_system.deep_view() =~= Seq::empty());
        r
    }
}

/// When lockfile is present, whether to allow only locked versions or allow upgrades.
#[derive(Clone, Copy, Debug, Eq, PartialEq, Structural)]
pub enum LockfileMode {
    /// Only versions (and revisions) present in the lockfile are allowed.
    Strict,
    /// Allow upgrades within the given policy (e.g. version >= locked that satisfies constraint).
    Flexible(UpgradePolicy),
}

/// Policy for flexible lockfile mode: which upgrades are allowed.
#[derive(Clone, Copy, Debug, Eq, PartialEq, Structural)]
pub enum UpgradePolicy {
    /// Allow any version >= locked version that satisfies the dependency constraint.
    AllowUpgrade,
}

impl DeepView for LockfileMode {
    type V = LockfileMode;

    open spec fn deep_view(&self) -> LockfileMode {
        *self
    }
}

/// Lockfile input to the resolver: optional lockfile plus mode when present.
pub type LockfileInput<'a> = Option<(&'a Lockfile, LockfileMode)>;

/// What a [`LockfileInput`] holds.
pub type LockfileInputView = Option<(Seq<LockfilePackageView>, LockfileMode)>;

/// The lockfile entry of a step.
pub open spec fn locked_step(s: PlanStepView) -> LockfilePackageView {
    LockfilePackageView {
        name: s.name,
        version: s.version,
        revision: s.revision,
        source: s.source,
    }
}

/// The lockfile entries of the steps.
pub open spec fn plan_lockfile(steps: Seq<PlanStepView>) -> Seq<LockfilePackageView> {
    steps.map_values(|s: PlanStepView| locked_step(s))
}

/// Builds a lockfile from a resolved plan (for writing sic.lock).
pub fn plan_to_lockfile(plan: &Plan) -> (r: Lockfile)
    ensures
        r@ == plan_lockfile(plan@.steps),
{
    let ghost all = plan@.steps;
    let mut packages: Vec<LockfilePackage> = Vec::new();
    let mut i: usize = 0;
    while i < plan.steps.len()
        invariant
            i <= plan.steps@.len(),
            all == plan.steps.deep_view(),
            packages@.len() == i,
            forall|j: int| 0 <= j < i ==> (#[trigger] packages@[j])@ == locked_step(all[j]),
        decreases plan.steps@.len() - i,
    {
        let s = &plan.steps[i];
        assert(all[i as int] == s@);
        packages.push(
            LockfilePackage {
                name: s.name.clone(),
                version: s.version.clone(),
                revision: s.revision,
                source: s.source.clone(),
            },
        );
        i += 1;
    }
    let r = Lockfile { packages };
    assert(r@ =~= plan_lockfile(all));
    r
}

} // verus!
