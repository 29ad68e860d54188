//! Resolving a request to a plan.

use vstd::prelude::*;
use vstd::string::*;

use crate::dep_constraint::{DepConstraint, DepConstraintView};
use crate::failure;
use crate::failure::{ResolverFailure, ResolverFailureView};
use crate::lists;
use crate::manifest::{Manifest, ManifestView};
use crate::package_name::PackageName;
use crate::resolver::available;
use crate::resolver::available::{AvailablePackages, Index};
use crate::resolver::choice::{Context, Setting};
use crate::resolver::circle;
use crate::resolver::order;
use crate::resolver::plan::{
    LockfileInput, LockfileInputView, Plan, PlanAction, PlanStep, PlanStepView, PlanView, Request,
    RequestView,
};
use crate::resolver::search;
use crate::resolver::search::{Selection, State};
use crate::resolver::settle;
use crate::source::{Source, SourceHash, SourceHashView, SourceView};
use crate::storage::installed;
use crate::storage::installed::InstalledEntryView;
use crate::storage::{InstalledDb, InstalledEntry};
use crate::system_packages::SystemPackages;
use crate::text;
use crate::text::Text;
use crate::views;

verus! {

/// The state after the names are resolved in turn, each as a request of its own.
pub open spec fn resolved_roots(setting: Setting, names: Seq<Text>) -> Result<
    State,
    ResolverFailureView,
>
    decreases names.len(),
{
    if names.len() == 0 {
        Ok(search::nothing())
    } else {
        match resolved_roots(setting, names.drop_last()) {
            Err(e) => Err(e),
            Ok(s) => search::resolved(setting, names.last(), None, true, Seq::empty(), s),
        }
    }
}

/// The plan for a settled state, unless there is a conflict in what is selected, a dependency that
/// is not met, or a circle of dependencies.
pub open spec fn plan_for(s: State, installed: Seq<InstalledEntryView>) -> Result<
    PlanView,
    ResolverFailureView,
> {
    if let Some((a, b)) = order::first_conflict(s.selected) {
        Err(failure::conflict(a, Some(seq![b])))
    } else if let Some(e) = settle::first_shortfall(s) {
        Err(e)
    } else if let Some(n) = circle::first_circle(s.selected) {
        Err(circle::circle_failure(n))
    } else {
        Ok(
            PlanView {
                steps: order::ordered_steps(s.selected, installed),
                satisfied_by_system: s.satisfied,
            },
        )
    }
}

/// The plan for the names.
pub open spec fn plan_for_names(setting: Setting, names: Seq<Text>) -> Result<
    PlanView,
    ResolverFailureView,
> {
    match resolved_roots(setting, names) {
        Err(e) => Err(e),
        Ok(s) => plan_for(settle::settle(s), setting.installed),
    }
}

/// The names of the installed packages.
pub open spec fn installed_names(installed: Seq<InstalledEntryView>) -> Seq<Text> {
    installed.map_values(|e: InstalledEntryView| e.name)
}

/// Whether one of the constraints is on the name.
pub open spec fn mentions(deps: Seq<DepConstraintView>, name: Text) -> bool {
    exists|i: int| 0 <= i < deps.len() && (#[trigger] deps[i]).name == name
}

/// Whether the manifest depends on the name, by itself or as an alternative.
pub open spec fn depends_on(m: ManifestView, name: Text) -> bool {
    ||| mentions(m.depends, name)
    ||| exists|i: int| 0 <= i < m.depends_any.len() && mentions(#[trigger] m.depends_any[i], name)
}

/// Whether a manifest has the version.
pub open spec fn has_version(v: Text) -> spec_fn(ManifestView) -> bool {
    |m: ManifestView| m.version == v
}

/// Whether an installed package depends on the name by its manifest, if that is available.
pub open spec fn dependent(available: Index, name: Text) -> spec_fn(InstalledEntryView) -> bool {
    |e: InstalledEntryView|
        {
            let known = available::versions_of(available, e.name).filter(has_version(e.version));
            known.len() > 0 && depends_on(known[0], name)
        }
}

/// The installed packages that depend on the name.
pub open spec fn dependents(
    available: Index,
    installed: Seq<InstalledEntryView>,
    name: Text,
) -> Seq<Text> {
    installed_names(installed.filter(dependent(available, name)))
}

/// The source of a step that fetches nothing: the hash is that of no bytes.
pub open spec fn no_source() -> SourceView {
    SourceView {
        kind: "none"@,
        url: Seq::empty(),
        hash: SourceHashView {
            algorithm: "sha256"@,
            hex: "e3b0c44298fc1c149afbf4c8996fb92427ae41e4649b934ca495991b7852b855"@,
        },
    }
}

/// The step that removes an installed package.
pub open spec fn removal_step(e: InstalledEntryView) -> PlanStepView {
    PlanStepView {
        name: e.name,
        version: e.version,
        revision: e.revision,
        source: no_source(),
        files: Seq::empty(),
        action: PlanAction::Remove,
    }
}

/// The plan that removes the package: it must be installed, and no installed package may depend
/// on it unless the removal is forced.
pub open spec fn removal(
    name: Text,
    force: bool,
    available: Index,
    installed: Seq<InstalledEntryView>,
) -> Result<PlanView, ResolverFailureView> {
    match installed::entry_of(installed, name) {
        None => Err(failure::other(Some(name), Some("package not installed"@))),
        Some(e) => if !force && dependents(available, installed, name).len() > 0 {
            Err(failure::has_dependents(name, dependents(available, installed, name)))
        } else {
            Ok(PlanView { steps: seq![removal_step(e)], satisfied_by_system: Seq::empty() })
        },
    }
}

/// The plan for the request.
pub open spec fn plan_for_request(
    request: RequestView,
    available: Index,
    installed: Seq<InstalledEntryView>,
    lockfile: LockfileInputView,
    system: Option<Seq<(Text, Text)>>,
) -> Result<PlanView, ResolverFailureView> {
    let install = Setting { available, installed, lockfile, system, prefer_upgrade: false };
    let upgrade = Setting { prefer_upgrade: true, ..install };
    match request {
        RequestView::Install { name } => plan_for_names(install, seq![name]),
        RequestView::Upgrade { name } => plan_for_names(upgrade, seq![name]),
        RequestView::UpgradeAll => plan_for_names(upgrade, installed_names(installed)),
        RequestView::Remove { name, force } => removal(name, force, available, installed),
    }
}

/// Resolves a user request against available packages and installed set. No I/O.
/// When `lockfile` is `Some`, resolution is constrained by the lockfile and mode (strict or
/// flexible). When `system` is `Some`, implicit dependencies can be satisfied by system packages
/// (prefer system).
pub fn resolve<'a>(
    request: Request,
    available: &'a AvailablePackages,
    installed: &'a InstalledDb,
    lockfile: LockfileInput<'a>,
    system: Option<&'a SystemPackages>,
) -> (r: Result<Plan, ResolverFailure>)
    ensures
        views::result_view(r) == plan_for_request(
            request.deep_view(),
            available@,
            installed@,
            lockfile.deep_view(),
            system.deep_view(),
        ),
{
    match request {
        Request::Remove { name, force } => resolve_remove(name, force, available, installed),
        Request::UpgradeAll => resolve_upgrade_all(available, installed, lockfile, system),
        Request::Install { name } => {
            let ctx = Context { available, installed, lockfile, system, prefer_upgrade: false };
            let names = vec![name];
            assert(names.deep_view() =~= seq![name@]);
            plan_names(ctx, &names)
        },
        Request::Upgrade { name } => {
            let ctx = Context { available, installed, lockfile, system, prefer_upgrade: true };
            let names = vec![name];
            assert(names.deep_view() =~= seq![name@]);
            plan_names(ctx, &names)
        },
    }
}

/// Resolves "upgrade all": resolve upgrade for each installed package and merge into one plan.
fn resolve_upgrade_all<'a>(
    available: &'a AvailablePackages,
    installed: &'a InstalledDb,
    lockfile: LockfileInput<'a>,
    system: Option<&'a SystemPackages>,
) -> (r: Result<Plan, ResolverFailure>)
    ensures
        views::result_view(r) == plan_for_request(
            RequestView::UpgradeAll,
            available@,
            installed@,
            lockfile.deep_view(),
            system.deep_view(),
        ),
{
    let ctx = Context { available, installed, lockfile, system, prefer_upgrade: true };
    plan_names(ctx, &names_installed(installed.list_all()))
}

fn names_installed(entries: &Vec<InstalledEntry>) -> (r: Vec<PackageName>)
    ensures
        r.deep_view() == installed_names(entries.deep_view()),
{
    let mut names: Vec<PackageName> = Vec::new();
    let mut i: usize = 0;
    while i < entries.len()
        invariant
            i <= entries@.len(),
            names@.len() == i,
            forall|j: int| 0 <= j < i ==> (#[trigger] names@[j])@ == entries@[j]@.name,
        decreases entries@.len() - i,
    {
        names.push(entries[i].name.clone());
        i += 1;
    }
    assert(names.deep_view() =~= installed_names(entries.deep_view()));
    names
}

/// The plan for the names, each resolved as a request of its own.
fn plan_names<'a>(ctx: Context<'a>, names: &Vec<PackageName>) -> (r: Result<
    Plan,
    ResolverFailure,
>)
    ensures
        views::result_view(r) == plan_for_names(ctx@, names.deep_view()),
{
    let ghost all = names.deep_view();
    let mut state: Selection<'a> = Selection::new();
    let path: Vec<PackageName> = Vec::new();
    assert(path.deep_view() =~= Seq::empty());
    let mut i: usize = 0;
    while i < names.len()
        invariant
            i <= names@.len(),
            all == names.deep_view(),
            path.deep_view() == Seq::<Text>::empty(),
            search::ordered(state@),
            resolved_roots(ctx@, all.take(i as int)) == Ok::<State, ResolverFailureView>(state@),
        decreases names@.len() - i,
    {
        assert(all[i as int] == names@[i as int]@);
        assert(all.take(i + 1).drop_last() == all.take(i as int));
        match search::resolve_one(ctx, &names[i], None, true, &path, &mut state) {
            Ok(()) => {},
            Err(e) => {
                proof {
                    lemma_roots_error(ctx@, all, i + 1);
                }
                return Err(e);
            },
        }
        i += 1;
    }
    assert(all.take(all.len() as int) == all);
    let state = settle::settled(state);
    match order::check_conflicts(&state.selected) {
        Ok(()) => {},
        Err(e) => {
            return Err(e);
        },
    }
    match settle::check_dependencies(&state) {
        Ok(()) => {},
        Err(e) => {
            return Err(e);
        },
    }
    match circle::check_circles(&state.selected) {
        Ok(()) => {},
        Err(e) => {
            return Err(e);
        },
    }
    let steps = order::topological_plan(&state.selected, ctx.installed);
    Ok(Plan { steps, satisfied_by_system: state.satisfied })
}

/// A name that cannot be resolved makes every list that continues it fail in the same way.
proof fn lemma_roots_error(setting: Setting, names: Seq<Text>, n: int)
    requires
        0 <= n <= names.len(),
        resolved_roots(setting, names.take(n)) is Err,
    ensures
        resolved_roots(setting, names) == resolved_roots(setting, names.take(n)),
    decreases names.len(),
{
    if n == names.len() {
        assert(names.take(n) == names);
    } else {
        assert(names.drop_last().take(n) == names.take(n));
        lemma_roots_error(setting, names.drop_last(), n);
    }
}

fn has_mention(deps: &Vec<DepConstraint>, name: &PackageName) -> (r: bool)
    ensures
        r == mentions(deps.deep_view(), name@),
{
    let ghost all = deps.deep_view();
    let mut i: usize = 0;
    while i < deps.len()
        invariant
            i <= deps@.len(),
            all == deps.deep_view(),
            forall|j: int| 0 <= j < i ==> (#[trigger] all[j]).name != name@,
        decreases deps@.len() - i,
    {
        assert(all[i as int] == deps@[i as int]@);
        if deps[i].name.same(name) {
            return true;
        }
        i += 1;
    }
    false
}

fn has_dependency(m: &Manifest, name: &PackageName) -> (r: bool)
    ensures
        r == depends_on(m@, name@),
{
    if has_mention(&m.depends, name) {
        return true;
    }
    let ghost all = m@.depends_any;
    let mut i: usize = 0;
    while i < m.depends_any.len()
        invariant
            i <= m.depends_any@.len(),
            all == m@.depends_any,
            !mentions(m@.depends, name@),
            forall|j: int| 0 <= j < i ==> !mentions(#[trigger] all[j], name@),
        decreases m.depends_any@.len() - i,
    {
        assert(all[i as int] == m.depends_any@[i as int].deep_view());
        if has_mention(&m.depends_any[i], name) {
            assert(mentions(all[i as int], name@));
            return true;
        }
        i += 1;
    }
    false
}

/// The first manifest of the version.
fn find_version<'a>(list: &'a Vec<Manifest>, v: &str) -> (r: Option<&'a Manifest>)
    ensures
        r.deep_view() == ({
            let known = list.deep_view().filter(has_version(v@));
            if known.len() > 0 {
                Some(known[0])
            } else {
                None
            }
        }),
{
    let ghost all = list.deep_view();
    let mut i: usize = 0;
    proof {
        reveal(Seq::filter);
    }
    while i < list.len()
        invariant
            i <= list@.len(),
            all == list.deep_view(),
            all.take(i as int).filter(has_version(v@)).len() == 0,
        decreases list@.len() - i,
    {
        assert(all[i as int] == list@[i as int]@);
        assert(all.take(i + 1).drop_last() == all.take(i as int));
        proof {
            reveal(Seq::filter);
        }
        if text::same_text(list[i].version.as_str(), v) {
            proof {
                lists::lemma_filter_first(all, has_version(v@), i + 1);
            }
            return Some(&list[i]);
        }
        i += 1;
    }
    assert(all.take(all.len() as int) == all);
    None
}

/// Whether an installed package depends on the name by its manifest, if that is available.
fn is_dependent(available: &AvailablePackages, e: &InstalledEntry, name: &PackageName) -> (r: bool)
    ensures
        r == dependent(available@, name@)(e@),
{
    match available.get_versions(&e.name) {
        Some(list) => match find_version(list, e.version.as_str()) {
            Some(m) => has_dependency(m, name),
            None => false,
        },
        None => {
            proof {
                reveal(Seq::filter);
            }
            false
        },
    }
}

/// Returns installed packages that depend on the given package name (via manifest
/// depends/depends_any).
pub fn dependents_of(
    name: &PackageName,
    available: &AvailablePackages,
    installed: &InstalledDb,
) -> (r: Vec<String>)
    ensures
        r.deep_view() == dependents(available@, installed@, name@),
{
    let entries = installed.list_all();
    let ghost all = installed@;
    let ghost pred = dependent(available@, name@);
    let mut out: Vec<String> = Vec::new();
    let mut i: usize = 0;
    proof {
        reveal(Seq::filter);
    }
    assert(out.deep_view() =~= installed_names(all.take(0).filter(pred)));
    while i < entries.len()
        invariant
            i <= entries@.len(),
            all == entries.deep_view(),
            pred == dependent(available@, name@),
            out.deep_view() == installed_names(all.take(i as int).filter(pred)),
        decreases entries@.len() - i,
    {
        let ghost before = out.deep_view();
        assert(all[i as int] == entries@[i as int]@);
        assert(all.take(i + 1).drop_last() == all.take(i as int));
        proof {
            reveal(Seq::filter);
        }
        if is_dependent(available, &entries[i], name) {
            out.push(entries[i].name.to_string());
            assert(out.deep_view() =~= before.push(all[i as int].name));
            assert(out.deep_view() =~= installed_names(all.take(i + 1).filter(pred)));
        }
        i += 1;
    }
    assert(all.take(all.len() as int) == all);
    out
}

/// Resolves "remove name": check no dependents (unless force), then plan a single Remove step.
pub fn resolve_remove(
    name: PackageName,
    force: bool,
    available: &AvailablePackages,
    installed: &InstalledDb,
) -> (r: Result<Plan, ResolverFailure>)
    ensures
        views::result_view(r) == removal(name@, force, available@, installed@),
{
    let entry = match installed.get_by_name(&name) {
        Some(entry) => entry,
        None => {
            return Err(
                ResolverFailure::other(Some(name.as_str()), Some("package not installed")),
            );
        },
    };
    let dependents = dependents_of(&name, available, installed);
    if !force && dependents.len() > 0 {
        return Err(ResolverFailure::has_dependents(name.as_str(), dependents));
    }
    let step = PlanStep {
        name: entry.name.clone(),
        version: entry.version.clone(),
        revision: entry.revision,
        source: Source {
            kind: "none".to_owned(),
            url: String::new(),
            hash: SourceHash {
                algorithm: "sha256".to_owned(),
                hex: "e3b0c44298fc1c149afbf4c8996fb92427ae41e4649b934ca495991b7852b855".to_owned(),
            },
        },
        files: Vec::new(),
        action: PlanAction::Remove,
    };
    assert(step.files.deep_view() =~= Seq::empty());
    let ghost sv = step@;
    let plan = Plan { steps: vec![step], satisfied_by_system: Vec::new() };
    assert(plan.steps.deep_view() =~= seq![sv]);
    assert(plan.satisfied_by_system.deep_view() =~= Seq::empty());
    Ok(plan)
}

} // verus!
