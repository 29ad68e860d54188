//! What holds of every plan, stated of its steps and of the positions in the index.

use std::cmp::Ordering;

use vstd::prelude::*;

use crate::dep_constraint;
use crate::dep_constraint::DepConstraintView;
use crate::failure::ResolverFailureView;
use crate::manifest::ManifestView;
use crate::resolver::available;
use crate::resolver::available::Index;
use crate::resolver::choice;
use crate::resolver::choice::Setting;
use crate::resolver::choice_laws;
use crate::resolver::circle;
use crate::resolver::circle_laws;
use crate::resolver::laws;
use crate::resolver::order;
use crate::resolver::order_laws;
use crate::resolver::plan::{
    LockfileInputView, PlanAction, PlanStepView, PlanView, RequestView,
};
use crate::resolver::request;
use crate::resolver::search;
use crate::resolver::search::State;
use crate::resolver::settle;
use crate::storage::installed::InstalledEntryView;
use crate::table;
use crate::text::Text;
use crate::version;

verus! {

/// How many steps the plan has.
pub open spec fn count(plan: PlanView) -> int {
    plan.steps.len() as int
}

/// Whether the step is for the manifest at `(k, j)` of the index.
pub open spec fn step_for(t: Index, step: PlanStepView, k: int, j: int) -> bool {
    &&& 0 <= k < t.len()
    &&& 0 <= j < t[k].1.len()
    &&& t[k].1[j].name == step.name
    &&& t[k].1[j].version == step.version
    &&& t[k].1[j].revision == step.revision
    &&& t[k].1[j].source == step.source
    &&& t[k].1[j].files == step.files
}

/// Whether the manifest at `(k, j)` of the index has the name and the rank of the step and provides
/// the name.
pub open spec fn provided_by(t: Index, step: PlanStepView, name: Text, k: int, j: int) -> bool {
    &&& 0 <= k < t.len()
    &&& 0 <= j < t[k].1.len()
    &&& t[k].1[j].name == step.name
    &&& version::version_order(t[k].1[j].version, step.version) == Ordering::Equal
    &&& t[k].1[j].provides.contains(name)
}

/// Whether the step is of the package of that name or, where the index has no such package, of one
/// that provides the name.
pub open spec fn serves(t: Index, step: PlanStepView, name: Text) -> bool {
    ||| step.name == name
    ||| (forall|i: int| 0 <= i < t.len() ==> (#[trigger] t[i]).0 != name) && exists|
        k: int,
        j: int,
    | #[trigger]
        provided_by(t, step, name, k, j)
}

/// Whether one of the first `n` steps meets the constraint.
pub open spec fn met_by_step(t: Index, plan: PlanView, c: DepConstraintView, n: int) -> bool {
    exists|i: int|
        0 <= i < n && i < plan.steps.len() && serves(t, #[trigger] plan.steps[i], c.name)
            && dep_constraint::satisfied(c, plan.steps[i].version)
}

/// Whether what the plan leaves to the system meets the constraint.
pub open spec fn met_by_system(plan: PlanView, c: DepConstraintView) -> bool {
    exists|q: int|
        0 <= q < plan.satisfied_by_system.len() && (#[trigger] plan.satisfied_by_system[q]).0
            == c.name && dep_constraint::satisfied(c, plan.satisfied_by_system[q].1)
}

/// Whether the plan meets the constraint, by one of its first `n` steps or by what it leaves to the
/// system.
pub open spec fn covers(t: Index, plan: PlanView, c: DepConstraintView, n: int) -> bool {
    met_by_step(t, plan, c, n) || met_by_system(plan, c)
}

/// The setting in which a request other than a removal is resolved.
spec fn setting_of(
    request: RequestView,
    t: Index,
    installed: Seq<InstalledEntryView>,
    lockfile: LockfileInputView,
    system: Option<Seq<(Text, Text)>>,
) -> Setting {
    Setting {
        available: t,
        installed,
        lockfile,
        system,
        prefer_upgrade: !(request is Install),
    }
}

/// The names that a request other than a removal asks for.
spec fn names_of(request: RequestView, installed: Seq<InstalledEntryView>) -> Seq<Text> {
    match request {
        RequestView::Install { name } => seq![name],
        RequestView::Upgrade { name } => seq![name],
        _ => request::installed_names(installed),
    }
}

/// Whether the request asks for the name.
pub open spec fn asks_for(
    request: RequestView,
    installed: Seq<InstalledEntryView>,
    name: Text,
) -> bool {
    match request {
        RequestView::Install { name: n } => n == name,
        RequestView::Upgrade { name: n } => n == name,
        RequestView::UpgradeAll => exists|i: int|
            0 <= i < installed.len() && (#[trigger] installed[i]).name == name,
        RequestView::Remove { .. } => false,
    }
}

/// The state behind a plan.
proof fn lemma_state(
    request: RequestView,
    t: Index,
    installed: Seq<InstalledEntryView>,
    lockfile: LockfileInputView,
    system: Option<Seq<(Text, Text)>>,
    plan: PlanView,
) -> (s: State)
    requires
        !(request is Remove),
        request::plan_for_request(request, t, installed, lockfile, system) == Ok::<
            _,
            ResolverFailureView,
        >(plan),
    ensures
        laws::makes_plan(
            setting_of(request, t, installed, lockfile, system),
            names_of(request, installed),
            s,
            plan,
        ),
        request::plan_for_names(
            setting_of(request, t, installed, lockfile, system),
            names_of(request, installed),
        ) == Ok::<_, ResolverFailureView>(plan),
{
    let setting = setting_of(request, t, installed, lockfile, system);
    let names = names_of(request, installed);
    settle::settle(request::resolved_roots(setting, names)->Ok_0)
}

/// A step has the rank that a key says.
proof fn lemma_step_with_key(steps: Seq<PlanStepView>, m: ManifestView, n: int) -> (i: int)
    requires
        0 <= n <= steps.len(),
        order::planned(steps.take(n), order::key_of(m)),
    ensures
        0 <= i < n,
        steps[i].name == m.name,
        version::version_order(m.version, steps[i].version) == Ordering::Equal,
        forall|c: DepConstraintView| #[trigger]
            dep_constraint::satisfied(c, m.version) == dep_constraint::satisfied(
                c,
                steps[i].version,
            ),
{
    let first = steps.take(n);
    let i = choose|i: int|
        0 <= i < first.len() && order::step_key(#[trigger] first[i]) == order::key_of(m);
    assert(first[i] == steps[i]);
    version::lemma_version_trichotomy(m.version, steps[i].version);
    i
}

/// The step of what is selected for a name serves the name.
proof fn lemma_serves(
    setting: Setting,
    names: Seq<Text>,
    s: State,
    plan: PlanView,
    name: Text,
    n: int,
) -> (i: int)
    requires
        available::well_indexed(setting.available),
        laws::makes_plan(setting, names, s, plan),
        table::get(s.selected, name) is Some,
        0 <= n <= plan.steps.len(),
        order::planned(
            plan.steps.take(n),
            order::key_of(table::get(s.selected, name)->0),
        ),
    ensures
        0 <= i < n,
        serves(setting.available, plan.steps[i], name),
        plan.steps[i].name == (table::get(s.selected, name)->0).name,
        version::version_order(
            (table::get(s.selected, name)->0).version,
            plan.steps[i].version,
        ) == Ordering::Equal,
        forall|c: DepConstraintView| #[trigger]
            dep_constraint::satisfied(c, (table::get(s.selected, name)->0).version)
                == dep_constraint::satisfied(c, plan.steps[i].version),
{
    let t = setting.available;
    let m = table::get(s.selected, name)->0;
    let i = lemma_step_with_key(plan.steps, m, n);
    laws::lemma_selected_allowed(setting, names, s, plan);
    assert(laws::in_index(t, m) && laws::stands_for(t, m, name));
    if m.name != name {
        let (k, j) = lemma_position(t, m);
        assert(provided_by(t, plan.steps[i], name, k, j));
        assert forall|a: int| 0 <= a < t.len() implies (#[trigger] t[a]).0 != name by {
            if t[a].0 == name {
                assert(table::has(t, name));
            }
        }
    }
    i
}

/// Where a manifest of the index stands.
proof fn lemma_position(t: Index, m: ManifestView) -> (r: (int, int))
    requires
        available::well_indexed(t),
        laws::in_index(t, m),
    ensures
        0 <= r.0 < t.len(),
        0 <= r.1 < t[r.0].1.len(),
        t[r.0].1[r.1] == m,
{
    let versions = available::versions_of(t, m.name);
    let k = table::lemma_index(t, m.name);
    let j = choose|j: int| 0 <= j < versions.len() && versions[j] == m;
    (k, j)
}

/// What is selected has a step.
proof fn lemma_has_step(
    setting: Setting,
    names: Seq<Text>,
    s: State,
    plan: PlanView,
    name: Text,
)
    requires
        available::well_indexed(setting.available),
        laws::makes_plan(setting, names, s, plan),
        table::get(s.selected, name) is Some,
    ensures
        order::planned(
            plan.steps.take(count(plan)),
            order::key_of(table::get(s.selected, name)->0),
        ),
{
    laws::lemma_plan_ordered(setting, names, s, plan);
    order_laws::lemma_one_step_each(s.selected, setting.installed);
    let i = table::lemma_index(s.selected, name);
    assert(plan.steps.take(count(plan)) =~= plan.steps);
    assert(order::planned(plan.steps, order::key_of(s.selected[i].1)));
}

proof fn lemma_covers(
    setting: Setting,
    names: Seq<Text>,
    s: State,
    plan: PlanView,
    c: DepConstraintView,
)
    requires
        available::well_indexed(setting.available),
        laws::makes_plan(setting, names, s, plan),
        settle::met(s, c),
    ensures
        covers(setting.available, plan, c, count(plan)),
{
    if let Some(m) = table::get(s.selected, c.name) {
        if dep_constraint::satisfied(c, m.version) {
            lemma_has_step(setting, names, s, plan, c.name);
            let i = lemma_serves(setting, names, s, plan, c.name, count(plan));
            assert(serves(setting.available, plan.steps[i], c.name));
            assert(met_by_step(setting.available, plan, c, count(plan)));
        }
    }
    if !met_by_step(setting.available, plan, c, count(plan)) {
        let v = table::get(s.satisfied, c.name)->0;
        let q = table::lemma_index(s.satisfied, c.name);
        assert(plan.satisfied_by_system[q].0 == c.name);
        assert(met_by_system(plan, c));
    }
}

/// Every plan is closed. Each of its steps is for a manifest of the index, in full; it upgrades
/// exactly if a package of its name is installed and installs otherwise; each dependency of the
/// manifest, at whatever position, is met by a step or by what is left to the system; and so is all of
/// one of its alternatives, if it has any.
pub proof fn lemma_plan_closed(
    request: RequestView,
    t: Index,
    installed: Seq<InstalledEntryView>,
    lockfile: LockfileInputView,
    system: Option<Seq<(Text, Text)>>,
    plan: PlanView,
    i: int,
) -> (r: (int, int))
    requires
        available::well_indexed(t),
        !(request is Remove),
        request::plan_for_request(request, t, installed, lockfile, system) == Ok::<
            _,
            ResolverFailureView,
        >(plan),
        0 <= i < plan.steps.len(),
    ensures
        step_for(t, plan.steps[i], r.0, r.1),
        choice_laws::let_in(lockfile, t[r.0].1[r.1]),
        (plan.steps[i].action == PlanAction::Upgrade) == (exists|e: int|
            0 <= e < installed.len() && (#[trigger] installed[e]).name == plan.steps[i].name),
        (plan.steps[i].action == PlanAction::Install) == (forall|e: int|
            0 <= e < installed.len() ==> (#[trigger] installed[e]).name != plan.steps[i].name),
        forall|d: int|
            0 <= d < t[r.0].1[r.1].depends.len() ==> covers(
                t,
                plan,
                #[trigger] t[r.0].1[r.1].depends[d],
                count(plan),
            ),
        t[r.0].1[r.1].depends_any.len() > 0 ==> exists|g: int|
            0 <= g < t[r.0].1[r.1].depends_any.len() && #[trigger] all_covered(
                t,
                plan,
                t[r.0].1[r.1].depends_any[g],
            ),
{
    let setting = setting_of(request, t, installed, lockfile, system);
    let names = names_of(request, installed);
    let s = lemma_state(request, t, installed, lockfile, system, plan);
    laws::lemma_plan_ordered(setting, names, s, plan);
    let m = laws::lemma_step_manifest(s.selected, installed, i);
    let own = choose|own: Text| #[trigger] table::get(s.selected, own) == Some(m);
    laws::lemma_selected_allowed(setting, names, s, plan);
    laws::lemma_dependencies_met(setting, names, s, plan);
    assert(laws::in_index(t, m));
    assert(settle::dependencies_met(s, m));
    let (k, j) = lemma_position(t, m);
    assert(laws::lockfile_allows(setting, m));
    choice_laws::lemma_allowed(lockfile, m);
    assert(choice::allowed_by(lockfile)(m));
    choice_laws::lemma_entry_is_first(installed, m.name);
    assert forall|d: int| 0 <= d < m.depends.len() implies covers(
        t,
        plan,
        #[trigger] m.depends[d],
        count(plan),
    ) by {
        assert(settle::met(s, m.depends[d]));
        lemma_covers(setting, names, s, plan, m.depends[d]);
    }
    if m.depends_any.len() > 0 {
        let g = choose|g: int|
            0 <= g < m.depends_any.len() && settle::all_met(s, #[trigger] m.depends_any[g]);
        assert forall|d: int| 0 <= d < m.depends_any[g].len() implies covers(
            t,
            plan,
            #[trigger] m.depends_any[g][d],
            count(plan),
        ) by {
            assert(settle::met(s, m.depends_any[g][d]));
            lemma_covers(setting, names, s, plan, m.depends_any[g][d]);
        }
        assert(all_covered(t, plan, m.depends_any[g]));
    }
    (k, j)
}

/// Whether the plan meets all the constraints.
pub open spec fn all_covered(t: Index, plan: PlanView, group: Seq<DepConstraintView>) -> bool {
    forall|d: int|
        0 <= d < group.len() ==> covers(t, plan, #[trigger] group[d], count(plan))
}

/// Each name that is asked for has a step that serves it, and is not left to the system.
pub proof fn lemma_request_served(
    request: RequestView,
    t: Index,
    installed: Seq<InstalledEntryView>,
    lockfile: LockfileInputView,
    system: Option<Seq<(Text, Text)>>,
    plan: PlanView,
    name: Text,
) -> (i: int)
    requires
        available::well_indexed(t),
        request::plan_for_request(request, t, installed, lockfile, system) == Ok::<
            _,
            ResolverFailureView,
        >(plan),
        asks_for(request, installed, name),
    ensures
        0 <= i < plan.steps.len(),
        serves(t, plan.steps[i], name),
        forall|q: int|
            0 <= q < plan.satisfied_by_system.len() ==> (#[trigger] plan.satisfied_by_system[q]).0
                != name,
{
    let setting = setting_of(request, t, installed, lockfile, system);
    let names = names_of(request, installed);
    let s = lemma_state(request, t, installed, lockfile, system, plan);
    laws::lemma_requested_selected(setting, names, s, plan);
    laws::lemma_plan_ordered(setting, names, s, plan);
    let at = match request {
        RequestView::UpgradeAll => choose|e: int|
            0 <= e < installed.len() && (#[trigger] installed[e]).name == name,
        _ => 0,
    };
    assert(names[at] == name);
    assert(table::has(s.selected, name));
    assert forall|q: int| 0 <= q < plan.satisfied_by_system.len() implies (
    #[trigger] plan.satisfied_by_system[q]).0 != name by {
        table::lemma_get(s.satisfied, q);
        assert(table::get(s.satisfied, s.satisfied[q].0) is Some);
    }
    lemma_has_step(setting, names, s, plan, name);
    lemma_serves(setting, names, s, plan, name, count(plan))
}

/// Whether no two versions of a package rank the same.
pub open spec fn ranks_differ(t: Index) -> bool {
    forall|k: int, j: int, n: int|
        #![trigger t[k].1[j], t[k].1[n]]
        0 <= k < t.len() && 0 <= j < n < t[k].1.len() ==> version::version_order(
            t[k].1[j].version,
            t[k].1[n].version,
        ) != Ordering::Equal
}

/// Dependencies come first: where no two versions of a package rank the same, each dependency of a
/// step is met by an earlier step or by what is left to the system. So no package depends on itself,
/// directly or through others.
pub proof fn lemma_plan_in_order(
    request: RequestView,
    t: Index,
    installed: Seq<InstalledEntryView>,
    lockfile: LockfileInputView,
    system: Option<Seq<(Text, Text)>>,
    plan: PlanView,
    i: int,
) -> (r: (int, int))
    requires
        available::well_indexed(t),
        ranks_differ(t),
        !(request is Remove),
        request::plan_for_request(request, t, installed, lockfile, system) == Ok::<
            _,
            ResolverFailureView,
        >(plan),
        0 <= i < plan.steps.len(),
    ensures
        step_for(t, plan.steps[i], r.0, r.1),
        forall|d: int|
            0 <= d < t[r.0].1[r.1].depends.len() ==> covers(
                t,
                plan,
                #[trigger] t[r.0].1[r.1].depends[d],
                i,
            ),
{
    let setting = setting_of(request, t, installed, lockfile, system);
    let names = names_of(request, installed);
    let s = lemma_state(request, t, installed, lockfile, system, plan);
    laws::lemma_plan_ordered(setting, names, s, plan);
    assert(circle_laws::ranks_apart(t)) by {
        assert forall|n: Text, j: int, k: int|
            #![trigger available::versions_of(t, n)[j], available::versions_of(t, n)[k]]
            0 <= j < k < available::versions_of(t, n).len() implies !version::version_eq(
            available::versions_of(t, n)[j].version,
            available::versions_of(t, n)[k].version,
        ) by {
            let a = table::lemma_index(t, n);
            let x = t[a].1[j];
            let y = t[a].1[k];
            version::lemma_version_trichotomy(x.version, y.version);
        }
    }
    circle_laws::lemma_keys_apart(setting, names, s, plan);
    circle_laws::lemma_dependencies_before_dependents(setting, names, s, plan, i);
    let m = choose|m: ManifestView| #[trigger]
        order_laws::selects(s.selected, m) && plan.steps[i] == order::step_of(m, installed)
            && forall|k: int|
            0 <= k < m.depends.len() ==> circle_laws::dependency_first(
                setting,
                s,
                plan.steps,
                i,
                #[trigger] m.depends[k],
            );
    let own = choose|own: Text| #[trigger] table::get(s.selected, own) == Some(m);
    laws::lemma_selected_allowed(setting, names, s, plan);
    assert(laws::in_index(t, m));
    let (k, j) = lemma_position(t, m);
    assert forall|d: int| 0 <= d < m.depends.len() implies covers(
        t,
        plan,
        #[trigger] m.depends[d],
        i,
    ) by {
        let c = m.depends[d];
        assert(circle_laws::dependency_first(setting, s, plan.steps, i, c));
        if table::get(s.satisfied, c.name) matches Some(v) && dep_constraint::satisfied(c, v) {
            let q = table::lemma_index(s.satisfied, c.name);
            assert(plan.satisfied_by_system[q].0 == c.name);
            assert(met_by_system(plan, c));
        } else {
            let (v, n) = choose|v: ManifestView, n: int|
                #![trigger order::step_of(v, setting.installed), plan.steps[n]]
                0 <= n < i && plan.steps[n] == order::step_of(v, setting.installed)
                    && dep_constraint::satisfied(c, v.version) && laws::stands_for(t, v, c.name)
                    && laws::in_index(t, v);
            let step = plan.steps[n];
            if step.name != c.name {
                let (a, b) = lemma_position(t, v);
                version::lemma_version_trichotomy(v.version, v.version);
                version::lemma_version_lt_irreflexive(v.version);
                assert(provided_by(t, step, c.name, a, b));
                assert forall|x: int| 0 <= x < t.len() implies (#[trigger] t[x]).0 != c.name by {
                    if t[x].0 == c.name {
                        assert(table::has(t, c.name));
                    }
                }
            }
            assert(serves(t, plan.steps[n], c.name));
            assert(met_by_step(t, plan, c, i));
        }
    }
    (k, j)
}

/// No two steps of a plan are for the same version of a package.
pub proof fn lemma_steps_differ(
    request: RequestView,
    t: Index,
    installed: Seq<InstalledEntryView>,
    lockfile: LockfileInputView,
    system: Option<Seq<(Text, Text)>>,
    plan: PlanView,
    i: int,
    j: int,
)
    requires
        available::well_indexed(t),
        !(request is Remove),
        request::plan_for_request(request, t, installed, lockfile, system) == Ok::<
            _,
            ResolverFailureView,
        >(plan),
        0 <= i < j < plan.steps.len(),
        plan.steps[i].name == plan.steps[j].name,
    ensures
        version::version_order(plan.steps[i].version, plan.steps[j].version) != Ordering::Equal,
{
    let setting = setting_of(request, t, installed, lockfile, system);
    let names = names_of(request, installed);
    let s = lemma_state(request, t, installed, lockfile, system, plan);
    laws::lemma_plan_ordered(setting, names, s, plan);
    order_laws::lemma_one_step_each(s.selected, installed);
    assert(order::step_key(plan.steps[i]) != order::step_key(plan.steps[j]));
    version::lemma_version_trichotomy(plan.steps[i].version, plan.steps[j].version);
}

/// A plan has no conflicts: what conflicts with a step is neither a name that was asked for nor the
/// package of a step that provides no other names.
pub proof fn lemma_plan_without_conflicts(
    request: RequestView,
    t: Index,
    installed: Seq<InstalledEntryView>,
    lockfile: LockfileInputView,
    system: Option<Seq<(Text, Text)>>,
    plan: PlanView,
    i: int,
) -> (r: (int, int))
    requires
        available::well_indexed(t),
        !(request is Remove),
        request::plan_for_request(request, t, installed, lockfile, system) == Ok::<
            _,
            ResolverFailureView,
        >(plan),
        0 <= i < plan.steps.len(),
    ensures
        step_for(t, plan.steps[i], r.0, r.1),
        forall|x: int|
            0 <= x < t[r.0].1[r.1].conflicts.len() ==> !asks_for(
                request,
                installed,
                #[trigger] t[r.0].1[r.1].conflicts[x],
            ),
        forall|x: int, n: int|
            #![trigger t[r.0].1[r.1].conflicts[x], plan.steps[n]]
            0 <= x < t[r.0].1[r.1].conflicts.len() && 0 <= n < plan.steps.len()
                && provides_nothing(t, plan.steps[n].name) ==> plan.steps[n].name
                != t[r.0].1[r.1].conflicts[x],
{
    let setting = setting_of(request, t, installed, lockfile, system);
    let names = names_of(request, installed);
    let s = lemma_state(request, t, installed, lockfile, system, plan);
    laws::lemma_plan_ordered(setting, names, s, plan);
    laws::lemma_requested_selected(setting, names, s, plan);
    laws::lemma_selected_allowed(setting, names, s, plan);
    laws::lemma_no_conflicts(setting, names, s, plan);
    let m = laws::lemma_step_manifest(s.selected, installed, i);
    let own = choose|own: Text| #[trigger] table::get(s.selected, own) == Some(m);
    assert(laws::in_index(t, m));
    let (k, j) = lemma_position(t, m);
    let a = table::lemma_index(s.selected, own);
    assert(s.selected[a].1 == m);
    assert forall|x: int| 0 <= x < m.conflicts.len() implies !table::has(
        s.selected,
        #[trigger] m.conflicts[x],
    ) by {
        assert(!table::has(s.selected, s.selected[a].1.conflicts[x]));
    }
    assert forall|x: int| 0 <= x < m.conflicts.len() implies !asks_for(
        request,
        installed,
        #[trigger] m.conflicts[x],
    ) by {
        let name = m.conflicts[x];
        if asks_for(request, installed, name) {
            let at = match request {
                RequestView::UpgradeAll => choose|e: int|
                    0 <= e < installed.len() && (#[trigger] installed[e]).name == name,
                _ => 0,
            };
            assert(names[at] == name);
        }
    }
    assert forall|x: int, n: int|
        #![trigger m.conflicts[x], plan.steps[n]]
        0 <= x < m.conflicts.len() && 0 <= n < plan.steps.len() && provides_nothing(
            t,
            plan.steps[n].name,
        ) implies plan.steps[n].name != m.conflicts[x] by {
        let other = laws::lemma_step_manifest(s.selected, installed, n);
        let name = choose|name: Text| #[trigger] table::get(s.selected, name) == Some(other);
        assert(laws::in_index(t, other) && laws::stands_for(t, other, name));
        let (b, c) = lemma_position(t, other);
        assert(t[b].1[c].provides.len() == 0);
        assert(other.name == name);
        assert(table::has(s.selected, name));
    }
    (k, j)
}

/// Whether no version of the package provides another name.
pub open spec fn provides_nothing(t: Index, name: Text) -> bool {
    forall|k: int, j: int|
        0 <= k < t.len() && 0 <= j < t[k].1.len() && (#[trigger] t[k].1[j]).name == name
            ==> t[k].1[j].provides.len() == 0
}

/// What is chosen for the one name that is asked for stays selected.
proof fn lemma_root_chosen(setting: Setting, name: Text, s: State, plan: PlanView)
    requires
        available::well_indexed(setting.available),
        laws::makes_plan(setting, seq![name], s, plan),
    ensures
        choice::chosen(setting, name, None) is Ok,
        table::get(s.selected, name) == Some(choice::chosen(setting, name, None)->Ok_0),
{
    let names = seq![name];
    let none = Seq::<Text>::empty();
    let start = search::nothing();
    assert(names.drop_last() =~= none);
    assert(names.last() == name);
    assert(request::resolved_roots(setting, none) == Ok::<_, ResolverFailureView>(start));
    let r = request::resolved_roots(setting, names)->Ok_0;
    assert(search::resolved(setting, name, None, true, none, start) == Ok::<_, ResolverFailureView>(
        r,
    ));
    assert(!table::has(start.selected, name));
    let m = choice::chosen(setting, name, None)->Ok_0;
    let inner = none.push(name);
    let u = search::with_selected(start, name, m);
    assert(names.contains(names[0]));
    laws::lemma_roots(setting, names, none);
    laws::lemma_begin_sound(setting, names, none, name, None, m, start);
    laws::lemma_demands(setting, name, None, m);
    laws::lemma_resolved_all(setting, names, m.depends, inner, u);
    table::lemma_put(start.selected, name, m);
    assert(table::has(u.selected, name));
    let w = search::resolved_all(setting, m.depends, inner, u)->Ok_0;
    assert(table::get(w.selected, name) == Some(m));
    assert(table::has(w.selected, name));
    if m.depends_any.len() > 0 {
        laws::lemma_resolved_any(setting, names, m.depends_any, inner, w);
    }
    assert(table::get(r.selected, name) == Some(m));
    assert(table::has(r.selected, name));
    settle::lemma_adopted(r.selected, r.satisfied);
}

/// An upgrade of a package, and an installation of one that is not installed, has a step for that
/// package whose version is not older than any available version that the lockfile lets in.
pub proof fn lemma_newest_planned(
    request: RequestView,
    name: Text,
    t: Index,
    installed: Seq<InstalledEntryView>,
    lockfile: LockfileInputView,
    system: Option<Seq<(Text, Text)>>,
    plan: PlanView,
    k: int,
    j: int,
) -> (i: int)
    requires
        available::well_indexed(t),
        request == (RequestView::Upgrade { name }) || (request == (RequestView::Install { name })
            && forall|e: int| 0 <= e < installed.len() ==> (#[trigger] installed[e]).name != name),
        request::plan_for_request(request, t, installed, lockfile, system) == Ok::<
            _,
            ResolverFailureView,
        >(plan),
        0 <= k < t.len(),
        t[k].0 == name,
        0 <= j < t[k].1.len(),
        choice_laws::let_in(lockfile, t[k].1[j]),
    ensures
        0 <= i < plan.steps.len(),
        plan.steps[i].name == name,
        version::version_order(plan.steps[i].version, t[k].1[j].version) != Ordering::Less,
{
    let setting = setting_of(request, t, installed, lockfile, system);
    let s = lemma_state(request, t, installed, lockfile, system, plan);
    lemma_root_chosen(setting, name, s, plan);
    choice_laws::lemma_newest_chosen(setting, name, None, k, j);
    lemma_has_step(setting, seq![name], s, plan, name);
    let i = lemma_serves(setting, seq![name], s, plan, name, count(plan));
    let m = choice::chosen(setting, name, None)->Ok_0;
    let v = plan.steps[i].version;
    version::lemma_version_trichotomy(m.version, v);
    version::lemma_version_trichotomy(v, t[k].1[j].version);
    version::lemma_version_eq_congruent(m.version, v, t[k].1[j].version);
    version::lemma_version_trichotomy(m.version, t[k].1[j].version);
    i
}

/// A package without dependencies, alternatives and conflicts is planned by itself: the plan is the
/// one step for what is chosen.
pub proof fn lemma_plain_package_planned(
    request: RequestView,
    name: Text,
    t: Index,
    installed: Seq<InstalledEntryView>,
    lockfile: LockfileInputView,
    system: Option<Seq<(Text, Text)>>,
    m: ManifestView,
)
    requires
        request == (RequestView::Upgrade { name }) || request == (RequestView::Install { name }),
        choice::chosen(
            (Setting {
                available: t,
                installed,
                lockfile,
                system,
                prefer_upgrade: request is Upgrade,
            }),
            name,
            None,
        ) == Ok::<_, ResolverFailureView>(m),
        m.depends.len() == 0,
        m.depends_any.len() == 0,
        m.conflicts.len() == 0,
    ensures
        request::plan_for_request(request, t, installed, lockfile, system) matches Ok(plan) && {
            &&& plan.steps.len() == 1
            &&& plan.steps[0].name == m.name
            &&& plan.steps[0].version == m.version
            &&& plan.steps[0].revision == m.revision
            &&& plan.steps[0].source == m.source
            &&& plan.steps[0].files == m.files
            &&& plan.satisfied_by_system.len() == 0
        },
{
    reveal(Seq::filter);
    let setting = setting_of(request, t, installed, lockfile, system);
    let names = seq![name];
    let none = Seq::<Text>::empty();
    let start = search::nothing();
    assert(names.drop_last() =~= none);
    assert(names.last() == name);
    assert(!table::has(start.selected, name));
    let u = search::with_selected(start, name, m);
    assert(request::resolved_roots(setting, none) == Ok::<_, ResolverFailureView>(start));
    assert(request::resolved_roots(setting, names) == Ok::<_, ResolverFailureView>(u));
    let s = settle::settle(u);
    assert(u.selected =~= seq![(name, m)]);
    assert(s.selected == u.selected);
    assert(s.satisfied =~= Seq::empty());
    table::lemma_get(u.selected, 0);
    assert(order::conflict_from(s.selected, 1) is None);
    assert(order::first_conflict(s.selected) is None);
    assert(settle::shortfall_from(s, 1) is None);
    assert(settle::first_shortfall(s) is None);
    assert(circle::circle_from(s.selected, 1) is None);
    assert(!circle::circular(s.selected, name)) by {
        if circle::circular(s.selected, name) {
            let p = choose|p: Seq<Text>| #[trigger]
                circle::name_chain(s.selected, p) && p.len() >= 2 && p[0] == name && p.last()
                    == name;
            assert(circle::name_edge(s.selected, p[0], p[1]));
        }
    }
    assert(circle::first_circle(s.selected) is None);
    let no_steps = Seq::<PlanStepView>::empty();
    assert(order::visited_names(s.selected, installed, 0) =~= no_steps);
    let inner = Seq::<order::StepKey>::empty().push(order::key_of(m));
    assert(order::visited_all(s.selected, installed, m.depends, inner, no_steps) == no_steps);
    assert(order::visited_groups(s.selected, installed, m.depends_any, inner, no_steps)
        == no_steps);
    assert(order::visited(s.selected, installed, name, Seq::empty(), no_steps) == no_steps.push(
        order::step_of(m, installed),
    ));
    assert(order::visited_names(s.selected, installed, 1) == no_steps.push(
        order::step_of(m, installed),
    ));
}

/// Upgrading everything where one package is installed is upgrading that package.
pub proof fn lemma_upgrade_all_of_one(
    t: Index,
    e: InstalledEntryView,
    lockfile: LockfileInputView,
    system: Option<Seq<(Text, Text)>>,
)
    ensures
        request::plan_for_request(RequestView::UpgradeAll, t, seq![e], lockfile, system)
            == request::plan_for_request(
            RequestView::Upgrade { name: e.name },
            t,
            seq![e],
            lockfile,
            system,
        ),
{
    assert(request::installed_names(seq![e]) =~= seq![e.name]);
}

/// Installing a package that is installed plans its installed version again, where that is available
/// and the lockfile lets it in, though newer versions may be.
pub proof fn lemma_installed_planned(
    name: Text,
    t: Index,
    installed: Seq<InstalledEntryView>,
    lockfile: LockfileInputView,
    system: Option<Seq<(Text, Text)>>,
    plan: PlanView,
    k: int,
    j: int,
) -> (i: int)
    requires
        available::well_indexed(t),
        request::plan_for_request(RequestView::Install { name }, t, installed, lockfile, system)
            == Ok::<_, ResolverFailureView>(plan),
        0 <= k < t.len(),
        t[k].0 == name,
        0 <= j < t[k].1.len(),
        choice_laws::let_in(lockfile, t[k].1[j]),
        choice_laws::as_installed(installed, name, t[k].1[j]),
    ensures
        0 <= i < plan.steps.len(),
        plan.steps[i].name == name,
        version::version_order(plan.steps[i].version, t[k].1[j].version) == Ordering::Equal,
{
    let request = RequestView::Install { name };
    let setting = setting_of(request, t, installed, lockfile, system);
    let s = lemma_state(request, t, installed, lockfile, system, plan);
    lemma_root_chosen(setting, name, s, plan);
    choice_laws::lemma_release_kept(setting, name, None, k, j);
    choice_laws::lemma_newest_chosen(setting, name, None, k, j);
    lemma_has_step(setting, seq![name], s, plan, name);
    let i = lemma_serves(setting, seq![name], s, plan, name, count(plan));
    version::lemma_version_trichotomy(plan.steps[i].version, t[k].1[j].version);
    version::lemma_version_trichotomy(t[k].1[j].version, plan.steps[i].version);
    i
}

} // verus!
