//! When a request has a plan, and which one: a package and what it depends on.

use vstd::prelude::*;

use crate::dep_constraint;
use crate::dep_constraint::DepConstraintView;
use crate::failure::{FailureKind, ResolverFailureView};
use crate::manifest::ManifestView;
use crate::resolver::available;
use crate::resolver::available::Index;
use crate::resolver::choice;
use crate::resolver::choice::Setting;
use crate::resolver::circle;
use crate::resolver::laws;
use crate::resolver::order;
use crate::resolver::order::{Selected, StepKey};
use crate::resolver::plan::{LockfileInputView, PlanStepView, PlanView, RequestView};
use crate::resolver::request;
use crate::resolver::search;
use crate::resolver::search::State;
use crate::resolver::settle;
use crate::storage::installed::InstalledEntryView;
use crate::table;
use crate::text;
use crate::text::Text;

verus! {

/// Whether the manifest depends on nothing and conflicts with nothing.
pub open spec fn plain(m: ManifestView) -> bool {
    m.depends.len() == 0 && m.depends_any.len() == 0 && m.conflicts.len() == 0
}

/// Whether the system has a package of that name whose version satisfies the constraint.
pub open spec fn system_has(system: Option<Seq<(Text, Text)>>, c: DepConstraintView) -> bool {
    system matches Some(packages) && (table::get(packages, c.name) matches Some(v)
        && dep_constraint::satisfied(c, v))
}

/// Whether the step is for the manifest, in full.
pub open spec fn step_is(step: PlanStepView, m: ManifestView) -> bool {
    &&& step.name == m.name
    &&& step.version == m.version
    &&& step.revision == m.revision
    &&& step.source == m.source
    &&& step.files == m.files
}

/// The setting in which the package is resolved.
pub open spec fn setting_for(
    upgrade: bool,
    t: Index,
    installed: Seq<InstalledEntryView>,
    lockfile: LockfileInputView,
    system: Option<Seq<(Text, Text)>>,
) -> Setting {
    Setting { available: t, installed, lockfile, system, prefer_upgrade: upgrade }
}

/// The request for the package.
pub open spec fn request_for(upgrade: bool, name: Text) -> RequestView {
    if upgrade {
        RequestView::Upgrade { name }
    } else {
        RequestView::Install { name }
    }
}

/// The state in which the two manifests are selected for their names.
spec fn pair(name: Text, m: ManifestView, other: Text, n: ManifestView) -> State {
    State {
        selected: table::put(table::put(Seq::empty(), name, m), other, n),
        satisfied: Seq::empty(),
    }
}

/// Whether the manifests are a package and another one, which is plain and all that it depends on.
spec fn pairs(name: Text, m: ManifestView, other: Text, n: ManifestView) -> bool {
    &&& m.name == name
    &&& n.name == other
    &&& name != other
    &&& plain(n)
    &&& m.conflicts.len() == 0
    &&& forall|i: int| 0 <= i < m.depends.len() ==> (#[trigger] m.depends[i]).name == other
}

/// Whether the package mentions the other in one of its alternatives.
spec fn mentioned(groups: Seq<Seq<DepConstraintView>>, other: Text) -> bool {
    exists|g: int, d: int|
        0 <= g < groups.len() && 0 <= d < groups[g].len() && (#[trigger] groups[g][d]).name
            == other
}

proof fn lemma_pair(name: Text, m: ManifestView, other: Text, n: ManifestView)
    requires
        name != other,
    ensures
        ({
            let s = pair(name, m, other, n);
            &&& table::sorted(s.selected)
            &&& table::get(s.selected, name) == Some(m)
            &&& table::get(s.selected, other) == Some(n)
            &&& forall|k: Text| #[trigger]
                table::has(s.selected, k) == (k == name || k == other)
            &&& s.selected == seq![(name, m), (other, n)] || s.selected == seq![
                (other, n),
                (name, m),
            ]
        }),
{
    let none = Seq::<(Text, ManifestView)>::empty();
    let one = table::put(none, name, m);
    assert(one =~= seq![(name, m)]);
    table::lemma_put(none, name, m);
    table::lemma_put(one, other, n);
    let s = pair(name, m, other, n).selected;
    assert(one.drop_last() =~= none);
    assert(one.last() == (name, m));
    if text::text_lt(other, name) {
        assert(table::put(none, other, n) =~= seq![(other, n)]);
        assert(s =~= seq![(other, n), (name, m)]);
    } else {
        assert(s =~= seq![(name, m), (other, n)]);
    }
    assert forall|k: Text| #[trigger] table::has(s, k) == (k == name || k == other) by {
        assert(!table::has(none, k));
    }
}

/// What has no dependencies leads nowhere.
proof fn lemma_leads_nowhere(s: Selected, a: Text, b: Text, m: ManifestView)
    requires
        table::get(s, a) == Some(m),
        m.depends.len() == 0,
    ensures
        !circle::leads(s, a, b),
{
    if circle::leads(s, a, b) {
        let p = choose|p: Seq<Text>| #[trigger]
            circle::name_chain(s, p) && p.len() >= 2 && p[0] == a && p.last() == b;
        assert(circle::name_edge(s, p[0], p[1]));
    }
}

proof fn lemma_visit_other(
    name: Text,
    m: ManifestView,
    other: Text,
    n: ManifestView,
    installed: Seq<InstalledEntryView>,
    open: Seq<StepKey>,
    steps: Seq<PlanStepView>,
)
    requires
        pairs(name, m, other, n),
        !open.contains(order::key_of(n)),
    ensures
        order::visited(pair(name, m, other, n).selected, installed, other, open, steps)
            == if order::planned(steps, order::key_of(n)) {
            steps
        } else {
            steps.push(order::step_of(n, installed))
        },
{
    lemma_pair(name, m, other, n);
    let s = pair(name, m, other, n).selected;
    let inner = open.push(order::key_of(n));
    assert(order::visited_all(s, installed, n.depends, inner, steps) == steps);
    assert(order::visited_groups(s, installed, n.depends_any, inner, steps) == steps);
}

/// The steps with that of the other package.
spec fn with_other(steps: Seq<PlanStepView>, n: ManifestView, installed: Seq<InstalledEntryView>) -> Seq<
    PlanStepView,
> {
    if order::planned(steps, order::key_of(n)) {
        steps
    } else {
        steps.push(order::step_of(n, installed))
    }
}

proof fn lemma_with_other(
    steps: Seq<PlanStepView>,
    n: ManifestView,
    installed: Seq<InstalledEntryView>,
)
    ensures
        order::planned(with_other(steps, n, installed), order::key_of(n)),
{
    if !order::planned(steps, order::key_of(n)) {
        let all = steps.push(order::step_of(n, installed));
        assert(order::step_key(all[steps.len() as int]) == order::key_of(n));
    }
}

proof fn lemma_visit_deps(
    name: Text,
    m: ManifestView,
    other: Text,
    n: ManifestView,
    installed: Seq<InstalledEntryView>,
    deps: Seq<DepConstraintView>,
    steps: Seq<PlanStepView>,
)
    requires
        pairs(name, m, other, n),
        forall|i: int| 0 <= i < deps.len() ==> (#[trigger] deps[i]).name == other,
    ensures
        order::visited_all(
            pair(name, m, other, n).selected,
            installed,
            deps,
            seq![order::key_of(m)],
            steps,
        ) == if deps.len() == 0 {
            steps
        } else {
            with_other(steps, n, installed)
        },
    decreases deps.len(),
{
    let open = seq![order::key_of(m)];
    if deps.len() > 0 {
        let d = deps.drop_last();
        assert(forall|i: int| 0 <= i < d.len() ==> #[trigger] d[i] == deps[i]);
        lemma_visit_deps(name, m, other, n, installed, d, steps);
        assert(deps.last() == deps[deps.len() - 1]);
        let front = if d.len() == 0 {
            steps
        } else {
            with_other(steps, n, installed)
        };
        assert(!open.contains(order::key_of(n)));
        lemma_visit_other(name, m, other, n, installed, open, front);
        lemma_with_other(steps, n, installed);
    }
}

/// What is not selected, or is being visited, adds no step; the other package adds its own.
proof fn lemma_visit_free(
    name: Text,
    m: ManifestView,
    other: Text,
    n: ManifestView,
    installed: Seq<InstalledEntryView>,
    deps: Seq<DepConstraintView>,
    steps: Seq<PlanStepView>,
)
    requires
        pairs(name, m, other, n),
    ensures
        order::visited_free(
            pair(name, m, other, n).selected,
            installed,
            deps,
            seq![order::key_of(m)],
            steps,
        ) == if request::mentions(deps, other) {
            with_other(steps, n, installed)
        } else {
            steps
        },
    decreases deps.len(),
{
    let open = seq![order::key_of(m)];
    let s = pair(name, m, other, n).selected;
    lemma_pair(name, m, other, n);
    lemma_with_other(steps, n, installed);
    if deps.len() > 0 {
        let d = deps.drop_last();
        let last = deps.last();
        assert(forall|i: int| 0 <= i < d.len() ==> #[trigger] d[i] == deps[i]);
        assert(last == deps[deps.len() - 1]);
        lemma_visit_free(name, m, other, n, installed, d, steps);
        let front = order::visited_free(s, installed, d, open, steps);
        assert(request::mentions(deps, other) == (request::mentions(d, other) || last.name
            == other)) by {
            if request::mentions(deps, other) && last.name != other {
                let i = choose|i: int| 0 <= i < deps.len() && (#[trigger] deps[i]).name == other;
                assert(d[i].name == other);
            }
            if request::mentions(d, other) {
                let i = choose|i: int| 0 <= i < d.len() && (#[trigger] d[i]).name == other;
                assert(deps[i].name == other);
            }
        }
        assert(open[0] == order::key_of(m));
        assert(!open.contains(order::key_of(n)));
        if last.name == other {
            assert(!order::blocked(s, open, other)) by {
                if order::blocked(s, open, other) {
                    let k = choose|k: Text| #[trigger]
                        order::is_open(s, open, k) && (k == other || circle::leads(s, other, k));
                    lemma_leads_nowhere(s, other, k, n);
                    assert(table::get(s, k) == Some(n));
                }
            }
            lemma_visit_other(name, m, other, n, installed, open, front);
        } else if last.name == name {
            assert(open.contains(order::key_of(m)));
            assert(order::is_open(s, open, name));
            assert(order::blocked(s, open, name));
        } else {
            assert(!table::has(s, last.name));
            assert(order::visited(s, installed, last.name, open, front) == front);
        }
    }
}

proof fn lemma_visit_groups(
    name: Text,
    m: ManifestView,
    other: Text,
    n: ManifestView,
    installed: Seq<InstalledEntryView>,
    groups: Seq<Seq<DepConstraintView>>,
    steps: Seq<PlanStepView>,
)
    requires
        pairs(name, m, other, n),
    ensures
        order::visited_groups(
            pair(name, m, other, n).selected,
            installed,
            groups,
            seq![order::key_of(m)],
            steps,
        ) == if mentioned(groups, other) {
            with_other(steps, n, installed)
        } else {
            steps
        },
    decreases groups.len(),
{
    lemma_with_other(steps, n, installed);
    if groups.len() > 0 {
        let d = groups.drop_last();
        let at = groups.len() - 1;
        assert(forall|i: int| 0 <= i < d.len() ==> #[trigger] d[i] == groups[i]);
        lemma_visit_groups(name, m, other, n, installed, d, steps);
        let front = if mentioned(d, other) {
            with_other(steps, n, installed)
        } else {
            steps
        };
        lemma_visit_free(name, m, other, n, installed, groups.last(), front);
        assert(mentioned(groups, other) == (mentioned(d, other) || request::mentions(
            groups[at],
            other,
        ))) by {
            if mentioned(groups, other) {
                let (g, e) = choose|g: int, e: int|
                    0 <= g < groups.len() && 0 <= e < groups[g].len() && (
                    #[trigger] groups[g][e]).name == other;
                if g < at {
                    assert(d[g][e].name == other);
                } else {
                    assert(groups[at][e].name == other);
                }
            }
            if mentioned(d, other) {
                let (g, e) = choose|g: int, e: int|
                    0 <= g < d.len() && 0 <= e < d[g].len() && (#[trigger] d[g][e]).name == other;
                assert(groups[g][e].name == other);
            }
            if request::mentions(groups[at], other) {
                let e = choose|e: int|
                    0 <= e < groups[at].len() && (#[trigger] groups[at][e]).name == other;
                assert(groups[at][e].name == other);
            }
        }
    }
}

/// The plan of a package and the other one that it depends on is the step of the other and then its
/// own.
#[verifier::spinoff_prover]
#[verifier::rlimit(40)]
proof fn lemma_pair_planned(
    name: Text,
    m: ManifestView,
    other: Text,
    n: ManifestView,
    installed: Seq<InstalledEntryView>,
)
    requires
        pairs(name, m, other, n),
        m.depends.len() > 0 || mentioned(m.depends_any, other),
        settle::dependencies_met(pair(name, m, other, n), m),
    ensures
        request::plan_for(settle::settle(pair(name, m, other, n)), installed) == Ok::<
            _,
            ResolverFailureView,
        >(
            PlanView {
                steps: seq![order::step_of(n, installed), order::step_of(m, installed)],
                satisfied_by_system: Seq::empty(),
            },
        ),
{
    reveal(Seq::filter);
    let s = pair(name, m, other, n);
    lemma_pair(name, m, other, n);
    let settled = settle::settle(s);
    assert(settled.selected == s.selected);
    assert(settled.satisfied =~= Seq::empty());
    assert(settled == s);
    let sel = s.selected;
    lemma_no_conflict(sel, 0);
    lemma_no_shortfall(s, n, m, 0);
    assert(!circle::circular(sel, other)) by {
        lemma_leads_nowhere(sel, other, other, n);
    }
    assert(!circle::circular(sel, name)) by {
        if circle::circular(sel, name) {
            let p = choose|p: Seq<Text>| #[trigger]
                circle::name_chain(sel, p) && p.len() >= 2 && p[0] == name && p.last() == name;
            assert(circle::name_edge(sel, p[0], p[1]));
            let i = choose|i: int|
                0 <= i < m.depends.len() && (#[trigger] m.depends[i]).name == p[1];
            assert(p[1] == other);
            if p.len() > 2 {
                assert(circle::name_edge(sel, p[1], p[2]));
            }
        }
    }
    lemma_no_circle(sel, 0);
    lemma_pair_steps(name, m, other, n, installed);
}

proof fn lemma_no_conflict(selected: Selected, i: int)
    requires
        0 <= i <= selected.len(),
        forall|k: int| 0 <= k < selected.len() ==> (#[trigger] selected[k]).1.conflicts.len() == 0,
    ensures
        order::conflict_from(selected, i) is None,
    decreases selected.len() - i,
{
    reveal(Seq::filter);
    if i < selected.len() {
        lemma_no_conflict(selected, i + 1);
    }
}

proof fn lemma_no_shortfall(s: State, n: ManifestView, m: ManifestView, i: int)
    requires
        0 <= i <= s.selected.len(),
        plain(n),
        settle::dependencies_met(s, m),
        forall|k: int|
            0 <= k < s.selected.len() ==> (#[trigger] s.selected[k]).1 == n || s.selected[k].1 == m,
    ensures
        settle::shortfall_from(s, i) is None,
    decreases s.selected.len() - i,
{
    reveal(Seq::filter);
    if i < s.selected.len() {
        lemma_no_shortfall(s, n, m, i + 1);
        let x = s.selected[i].1;
        let missing = x.depends.filter(settle::unmet(s));
        crate::lists::lemma_filter(x.depends, settle::unmet(s));
        if missing.len() > 0 {
            assert(missing.contains(missing[0]));
            let k = choose|k: int| 0 <= k < x.depends.len() && x.depends[k] == missing[0];
            assert(settle::met(s, m.depends[k]));
        }
    }
}

proof fn lemma_no_circle(selected: Selected, i: int)
    requires
        0 <= i <= selected.len(),
        forall|k: int|
            0 <= k < selected.len() ==> !circle::circular(selected, (#[trigger] selected[k]).0),
    ensures
        circle::circle_from(selected, i) is None,
    decreases selected.len() - i,
{
    if i < selected.len() {
        lemma_no_circle(selected, i + 1);
    }
}

proof fn lemma_pair_steps(
    name: Text,
    m: ManifestView,
    other: Text,
    n: ManifestView,
    installed: Seq<InstalledEntryView>,
)
    requires
        pairs(name, m, other, n),
        m.depends.len() > 0 || mentioned(m.depends_any, other),
    ensures
        order::ordered_steps(pair(name, m, other, n).selected, installed) == seq![
            order::step_of(n, installed),
            order::step_of(m, installed),
        ],
{
    let sel = pair(name, m, other, n).selected;
    lemma_pair(name, m, other, n);
    let none = Seq::<PlanStepView>::empty();
    let nothing = Seq::<StepKey>::empty();
    let a = order::step_of(n, installed);
    let b = order::step_of(m, installed);
    assert(nothing.push(order::key_of(m)) =~= seq![order::key_of(m)]);
    assert(order::visited_names(sel, installed, 0) =~= none);
    // From nothing, or after the other package: both end in the two steps.
    let first = none.push(a);
    assert(first[0] == a);
    assert(order::step_key(first[0]) == order::key_of(n));
    assert(order::planned(first, order::key_of(n)));
    assert(!order::planned(none, order::key_of(n)));
    assert(!order::planned(none, order::key_of(m)));
    assert(!order::planned(first, order::key_of(m))) by {
        assert(order::key_of(m).0 != order::key_of(n).0);
    }
    assert(with_other(none, n, installed) == first);
    assert(with_other(first, n, installed) == first);
    lemma_visit_deps(name, m, other, n, installed, m.depends, none);
    lemma_visit_deps(name, m, other, n, installed, m.depends, first);
    lemma_visit_groups(name, m, other, n, installed, m.depends_any, none);
    lemma_visit_groups(name, m, other, n, installed, m.depends_any, first);
    assert(order::visited(sel, installed, name, nothing, none) == first.push(b));
    assert(order::visited(sel, installed, name, nothing, first) == first.push(b));
    lemma_visit_other(name, m, other, n, installed, nothing, none);
    let both = first.push(b);
    assert(both[0] == a);
    assert(order::step_key(both[0]) == order::key_of(n));
    assert(order::planned(both, order::key_of(n)));
    lemma_visit_other(name, m, other, n, installed, nothing, both);
    assert(both =~= seq![a, b]);
    let k = sel[0].0;
    assert(order::visited_names(sel, installed, 1) == order::visited(
        sel,
        installed,
        k,
        nothing,
        none,
    ));
    assert(order::visited_names(sel, installed, 2) == order::visited(
        sel,
        installed,
        sel[1].0,
        nothing,
        order::visited_names(sel, installed, 1),
    ));
}

/// Resolving a plain dependency selects what is chosen for it.
proof fn lemma_dependency_resolved(
    setting: Setting,
    name: Text,
    m: ManifestView,
    c: DepConstraintView,
    n: ManifestView,
)
    requires
        c.name != name,
        !system_has(setting.system, c),
        choice::chosen(setting, c.name, Some(c)) == Ok::<_, ResolverFailureView>(n),
        plain(n),
    ensures
        search::resolved(
            setting,
            c.name,
            Some(c),
            false,
            Seq::<Text>::empty().push(name),
            search::with_selected(search::nothing(), name, m),
        ) == Ok::<_, ResolverFailureView>(pair(name, m, c.name, n)),
{
    let path = Seq::<Text>::empty().push(name);
    let u = search::with_selected(search::nothing(), name, m);
    table::lemma_put(search::nothing().selected, name, m);
    assert(!table::has(search::nothing().selected, c.name));
    assert(!table::has(u.selected, c.name));
    assert(!path.contains(c.name));
    assert(search::system_version(setting, c.name, Some(c)) is None);
    let v = search::with_selected(u, c.name, n);
    assert(search::resolved_all(setting, n.depends, path.push(c.name), v) == Ok::<
        _,
        ResolverFailureView,
    >(v));
    assert(v == pair(name, m, c.name, n));
}

/// What is asked for begins with what is chosen for it.
proof fn lemma_begins(setting: Setting, name: Text, m: ManifestView)
    requires
        choice::chosen(setting, name, None) == Ok::<_, ResolverFailureView>(m),
    ensures
        ({
            let path = Seq::<Text>::empty().push(name);
            let u = search::with_selected(search::nothing(), name, m);
            request::resolved_roots(setting, seq![name]) == match search::resolved_all(
                setting,
                m.depends,
                path,
                u,
            ) {
                Err(e) => Err(e),
                Ok(t) => if m.depends_any.len() == 0 {
                    Ok(t)
                } else {
                    match search::resolved_any(setting, m.depends_any, path, t) {
                        Some(w) => Ok(w),
                        None => Err(search::no_alternative(m)),
                    }
                },
            }
        }),
{
    let names = seq![name];
    let none = Seq::<Text>::empty();
    assert(names.drop_last() =~= none);
    assert(names.last() == name);
    assert(request::resolved_roots(setting, none) == Ok::<_, ResolverFailureView>(
        search::nothing(),
    ));
    assert(!table::has(search::nothing().selected, name));
}

/// A package with one plain dependency, which the system does not satisfy, is planned after it: the
/// plan is the step for what is chosen for the dependency, and then the step for the package.
pub proof fn lemma_dependency_planned(
    upgrade: bool,
    name: Text,
    t: Index,
    installed: Seq<InstalledEntryView>,
    lockfile: LockfileInputView,
    system: Option<Seq<(Text, Text)>>,
    m: ManifestView,
    c: DepConstraintView,
    n: ManifestView,
)
    requires
        available::well_indexed(t),
        choice::chosen(setting_for(upgrade, t, installed, lockfile, system), name, None) == Ok::<
            _,
            ResolverFailureView,
        >(m),
        m.name == name,
        m.depends == seq![c],
        m.depends_any.len() == 0,
        m.conflicts.len() == 0,
        c.name != name,
        !system_has(system, c),
        choice::chosen(setting_for(upgrade, t, installed, lockfile, system), c.name, Some(c))
            == Ok::<_, ResolverFailureView>(n),
        n.name == c.name,
        plain(n),
    ensures
        request::plan_for_request(request_for(upgrade, name), t, installed, lockfile, system)
            matches Ok(plan) && plan.steps.len() == 2 && step_is(plan.steps[0], n) && step_is(
            plan.steps[1],
            m,
        ) && plan.satisfied_by_system.len() == 0,
{
    let setting = setting_for(upgrade, t, installed, lockfile, system);
    let path = Seq::<Text>::empty().push(name);
    let u = search::with_selected(search::nothing(), name, m);
    lemma_begins(setting, name, m);
    lemma_dependency_resolved(setting, name, m, c, n);
    assert(m.depends.drop_last() =~= Seq::empty());
    assert(m.depends.last() == c);
    assert(search::resolved_all(setting, m.depends.drop_last(), path, u) == Ok::<
        _,
        ResolverFailureView,
    >(u));
    let s = pair(name, m, c.name, n);
    lemma_pair(name, m, c.name, n);
    laws::lemma_chosen(setting, c.name, Some(c), n);
    assert(settle::met(s, c));
    assert(settle::dependencies_met(s, m)) by {
        assert forall|i: int| 0 <= i < m.depends.len() implies settle::met(
            s,
            #[trigger] m.depends[i],
        ) by {}
    }
    lemma_pair_planned(name, m, c.name, n, installed);
}

/// A package with one dependency that the system satisfies is planned by itself, with the dependency
/// left to the system in the system's version.
pub proof fn lemma_dependency_left_to_system(
    upgrade: bool,
    name: Text,
    t: Index,
    installed: Seq<InstalledEntryView>,
    lockfile: LockfileInputView,
    packages: Seq<(Text, Text)>,
    m: ManifestView,
    c: DepConstraintView,
    v: Text,
)
    requires
        choice::chosen(setting_for(upgrade, t, installed, lockfile, Some(packages)), name, None)
            == Ok::<_, ResolverFailureView>(m),
        m.name == name,
        m.depends == seq![c],
        m.depends_any.len() == 0,
        m.conflicts.len() == 0,
        c.name != name,
        table::get(packages, c.name) == Some(v),
        dep_constraint::satisfied(c, v),
    ensures
        request::plan_for_request(
            request_for(upgrade, name),
            t,
            installed,
            lockfile,
            Some(packages),
        ) matches Ok(plan) && plan.steps.len() == 1 && step_is(plan.steps[0], m)
            && plan.satisfied_by_system == seq![(c.name, v)],
{
    reveal(Seq::filter);
    let setting = setting_for(upgrade, t, installed, lockfile, Some(packages));
    let path = Seq::<Text>::empty().push(name);
    let u = search::with_selected(search::nothing(), name, m);
    lemma_begins(setting, name, m);
    assert(m.depends.drop_last() =~= Seq::empty());
    assert(m.depends.last() == c);
    assert(search::resolved_all(setting, m.depends.drop_last(), path, u) == Ok::<
        _,
        ResolverFailureView,
    >(u));
    assert(u.selected =~= seq![(name, m)]);
    table::lemma_get(u.selected, 0);
    assert(!table::has(u.selected, c.name));
    assert(!path.contains(c.name));
    let s = search::with_satisfied(u, c.name, v);
    assert(!table::has(u.satisfied, c.name));
    assert(s.satisfied =~= seq![(c.name, v)]);
    table::lemma_get(s.satisfied, 0);
    assert(search::resolved(setting, c.name, Some(c), false, path, u) == Ok::<
        _,
        ResolverFailureView,
    >(s));
    assert(request::resolved_roots(setting, seq![name]) == Ok::<_, ResolverFailureView>(s));
    let settled = settle::settle(s);
    assert(settle::adopted(s.selected, s.satisfied.drop_last()) == s.selected);
    let found = s.selected.filter(settle::of_package(c.name));
    assert(found.len() == 0) by {
        crate::lists::lemma_filter(s.selected, settle::of_package(c.name));
        if found.len() > 0 {
            assert(found.contains(found[0]));
        }
    }
    assert(settled.selected == s.selected);
    assert(settled.satisfied =~= s.satisfied) by {
        let keep = settle::left_over(s.selected);
        assert(keep(s.satisfied[0]));
        assert(s.satisfied.drop_last() =~= Seq::empty());
        assert(s.satisfied.drop_last().filter(keep) =~= Seq::empty());
        assert(s.satisfied.last() == s.satisfied[0]);
    }
    assert(settle::met(settled, c));
    assert forall|i: int| 0 <= i < m.depends.len() implies settle::met(
        settled,
        #[trigger] m.depends[i],
    ) by {}
    assert(settle::dependencies_met(settled, m));
    lemma_no_conflict(settled.selected, 0);
    let spare = ManifestView {
        depends: Seq::empty(),
        depends_any: Seq::empty(),
        conflicts: Seq::empty(),
        ..m
    };
    lemma_no_shortfall(settled, spare, m, 0);
    assert(!circle::circular(settled.selected, name)) by {
        if circle::circular(settled.selected, name) {
            let p = choose|p: Seq<Text>| #[trigger]
                circle::name_chain(settled.selected, p) && p.len() >= 2 && p[0] == name && p.last()
                    == name;
            assert(circle::name_edge(settled.selected, p[0], p[1]));
        }
    }
    lemma_no_circle(settled.selected, 0);
    let none = Seq::<PlanStepView>::empty();
    let nothing = Seq::<StepKey>::empty();
    let inner = nothing.push(order::key_of(m));
    let sel = settled.selected;
    assert(order::visited_names(sel, installed, 0) =~= none);
    assert(!order::planned(none, order::key_of(m)));
    assert(order::visited_all(sel, installed, m.depends.drop_last(), inner, none) == none);
    assert(order::visited(sel, installed, c.name, inner, none) == none);
    assert(order::visited_all(sel, installed, m.depends, inner, none) == none);
    assert(order::visited_groups(sel, installed, m.depends_any, inner, none) == none);
    assert(order::visited(sel, installed, name, nothing, none) == none.push(
        order::step_of(m, installed),
    ));
    assert(order::visited_names(sel, installed, 1) == none.push(order::step_of(m, installed)));
}

proof fn lemma_any_keeps(
    setting: Setting,
    groups: Seq<Seq<DepConstraintView>>,
    path: Seq<Text>,
    s: State,
    k: int,
)
    requires
        0 <= k <= groups.len(),
        search::resolved_any(setting, groups.take(k), path, s) is Some,
    ensures
        search::resolved_any(setting, groups, path, s) == search::resolved_any(
            setting,
            groups.take(k),
            path,
            s,
        ),
    decreases groups.len(),
{
    if k == groups.len() {
        assert(groups.take(k) =~= groups);
    } else {
        assert(groups.drop_last().take(k) =~= groups.take(k));
        lemma_any_keeps(setting, groups.drop_last(), path, s, k);
    }
}

proof fn lemma_group_resolved(
    setting: Setting,
    name: Text,
    m: ManifestView,
    c: DepConstraintView,
    r: Result<State, ResolverFailureView>,
)
    requires
        c.name != name,
        search::resolved(
            setting,
            c.name,
            Some(c),
            false,
            Seq::<Text>::empty().push(name),
            search::with_selected(search::nothing(), name, m),
        ) == r,
    ensures
        search::resolved_group(
            setting,
            seq![c],
            Seq::<Text>::empty().push(name),
            search::with_selected(search::nothing(), name, m),
        ) == match r {
            Ok(t) => Some(t),
            Err(_) => None,
        },
{
    let u = search::with_selected(search::nothing(), name, m);
    let path = Seq::<Text>::empty().push(name);
    let one = seq![c];
    assert(one.drop_last() =~= Seq::empty());
    assert(one.last() == c);
    table::lemma_put(search::nothing().selected, name, m);
    assert(!table::has(search::nothing().selected, c.name));
    assert(!table::has(u.selected, c.name));
    assert(search::resolved_group(setting, one.drop_last(), path, u) == Some(u));
}

/// Of alternatives the first that can be had is taken: where the first is one plain package that can,
/// the plan is the step for what is chosen for it and then the step for the package, whatever the
/// other alternatives are.
pub proof fn lemma_first_alternative_planned(
    upgrade: bool,
    name: Text,
    t: Index,
    installed: Seq<InstalledEntryView>,
    lockfile: LockfileInputView,
    system: Option<Seq<(Text, Text)>>,
    m: ManifestView,
    c: DepConstraintView,
    n: ManifestView,
)
    requires
        available::well_indexed(t),
        choice::chosen(setting_for(upgrade, t, installed, lockfile, system), name, None) == Ok::<
            _,
            ResolverFailureView,
        >(m),
        m.name == name,
        m.depends.len() == 0,
        m.depends_any.len() > 0,
        m.depends_any[0] == seq![c],
        m.conflicts.len() == 0,
        c.name != name,
        !system_has(system, c),
        choice::chosen(setting_for(upgrade, t, installed, lockfile, system), c.name, Some(c))
            == Ok::<_, ResolverFailureView>(n),
        n.name == c.name,
        plain(n),
    ensures
        request::plan_for_request(request_for(upgrade, name), t, installed, lockfile, system)
            matches Ok(plan) && plan.steps.len() == 2 && step_is(plan.steps[0], n) && step_is(
            plan.steps[1],
            m,
        ) && plan.satisfied_by_system.len() == 0,
{
    let setting = setting_for(upgrade, t, installed, lockfile, system);
    let path = Seq::<Text>::empty().push(name);
    let u = search::with_selected(search::nothing(), name, m);
    lemma_begins(setting, name, m);
    lemma_dependency_resolved(setting, name, m, c, n);
    let s = pair(name, m, c.name, n);
    lemma_group_resolved(setting, name, m, c, Ok(s));
    let groups = m.depends_any;
    let first = groups.take(1);
    assert(first.drop_last() =~= Seq::empty());
    assert(first.last() == groups[0]);
    assert(search::resolved_any(setting, first.drop_last(), path, u) is None);
    assert(search::resolved_any(setting, first, path, u) == Some(s));
    lemma_any_keeps(setting, groups, path, u, 1);
    lemma_alternative_met(setting, name, m, c, n, 0);
    lemma_pair_planned(name, m, c.name, n, installed);
}

proof fn lemma_alternative_met(
    setting: Setting,
    name: Text,
    m: ManifestView,
    c: DepConstraintView,
    n: ManifestView,
    g: int,
)
    requires
        available::well_indexed(setting.available),
        m.depends.len() == 0,
        0 <= g < m.depends_any.len(),
        m.depends_any[g] == seq![c],
        c.name != name,
        choice::chosen(setting, c.name, Some(c)) == Ok::<_, ResolverFailureView>(n),
    ensures
        mentioned(m.depends_any, c.name),
        settle::dependencies_met(pair(name, m, c.name, n), m),
{
    let s = pair(name, m, c.name, n);
    lemma_pair(name, m, c.name, n);
    laws::lemma_chosen(setting, c.name, Some(c), n);
    assert(m.depends_any[g][0].name == c.name);
    assert(settle::met(s, c));
    assert(settle::all_met(s, m.depends_any[g])) by {
        assert forall|i: int| 0 <= i < m.depends_any[g].len() implies settle::met(
            s,
            #[trigger] m.depends_any[g][i],
        ) by {}
    }
}

/// An alternative that cannot be had is passed over: where the first is one package that cannot be
/// chosen and that the system does not satisfy, and the second is one plain package that can, the plan
/// is the step for what is chosen for that and then the step for the package.
pub proof fn lemma_second_alternative_planned(
    upgrade: bool,
    name: Text,
    t: Index,
    installed: Seq<InstalledEntryView>,
    lockfile: LockfileInputView,
    system: Option<Seq<(Text, Text)>>,
    m: ManifestView,
    b: DepConstraintView,
    c: DepConstraintView,
    n: ManifestView,
)
    requires
        available::well_indexed(t),
        choice::chosen(setting_for(upgrade, t, installed, lockfile, system), name, None) == Ok::<
            _,
            ResolverFailureView,
        >(m),
        m.name == name,
        m.depends.len() == 0,
        m.depends_any.len() > 1,
        m.depends_any[0] == seq![b],
        m.depends_any[1] == seq![c],
        m.conflicts.len() == 0,
        b.name != name,
        c.name != name,
        !system_has(system, b),
        !system_has(system, c),
        choice::chosen(setting_for(upgrade, t, installed, lockfile, system), b.name, Some(b))
            is Err,
        choice::chosen(setting_for(upgrade, t, installed, lockfile, system), c.name, Some(c))
            == Ok::<_, ResolverFailureView>(n),
        n.name == c.name,
        plain(n),
    ensures
        request::plan_for_request(request_for(upgrade, name), t, installed, lockfile, system)
            matches Ok(plan) && plan.steps.len() == 2 && step_is(plan.steps[0], n) && step_is(
            plan.steps[1],
            m,
        ) && plan.satisfied_by_system.len() == 0,
{
    let setting = setting_for(upgrade, t, installed, lockfile, system);
    let path = Seq::<Text>::empty().push(name);
    let u = search::with_selected(search::nothing(), name, m);
    lemma_begins(setting, name, m);
    table::lemma_put(search::nothing().selected, name, m);
    assert(!table::has(search::nothing().selected, b.name));
    assert(!table::has(u.selected, b.name));
    assert(!path.contains(b.name));
    assert(search::system_version(setting, b.name, Some(b)) is None);
    let failed = search::resolved(setting, b.name, Some(b), false, path, u);
    assert(failed is Err);
    lemma_group_resolved(setting, name, m, b, failed);
    lemma_dependency_resolved(setting, name, m, c, n);
    let s = pair(name, m, c.name, n);
    lemma_group_resolved(setting, name, m, c, Ok(s));
    let groups = m.depends_any;
    let first = groups.take(1);
    let two = groups.take(2);
    assert(first.drop_last() =~= Seq::empty());
    assert(first.last() == groups[0]);
    assert(search::resolved_any(setting, first.drop_last(), path, u) is None);
    assert(search::resolved_any(setting, first, path, u) is None);
    assert(two.drop_last() =~= first);
    assert(two.last() == groups[1]);
    assert(search::resolved_any(setting, two, path, u) == Some(s));
    lemma_any_keeps(setting, groups, path, u, 2);
    lemma_alternative_met(setting, name, m, c, n, 1);
    lemma_pair_planned(name, m, c.name, n, installed);
}

/// A package of which nothing can be chosen has no plan, for that reason; nor has one with a
/// dependency of which nothing can be chosen and that the system does not satisfy.
pub proof fn lemma_no_plan(
    upgrade: bool,
    name: Text,
    t: Index,
    installed: Seq<InstalledEntryView>,
    lockfile: LockfileInputView,
    system: Option<Seq<(Text, Text)>>,
    m: ManifestView,
    c: DepConstraintView,
    f: ResolverFailureView,
)
    ensures
        choice::chosen(setting_for(upgrade, t, installed, lockfile, system), name, None) == Err::<
            ManifestView,
            _,
        >(f) ==> request::plan_for_request(
            request_for(upgrade, name),
            t,
            installed,
            lockfile,
            system,
        ) == Err::<PlanView, _>(f),
        choice::chosen(setting_for(upgrade, t, installed, lockfile, system), name, None) == Ok::<
            _,
            ResolverFailureView,
        >(m) && m.depends == seq![c] && c.name != name && !system_has(system, c) && choice::chosen(
            setting_for(upgrade, t, installed, lockfile, system),
            c.name,
            Some(c),
        ) == Err::<ManifestView, _>(f) ==> request::plan_for_request(
            request_for(upgrade, name),
            t,
            installed,
            lockfile,
            system,
        ) == Err::<PlanView, _>(f),
{
    let setting = setting_for(upgrade, t, installed, lockfile, system);
    let names = seq![name];
    let none = Seq::<Text>::empty();
    assert(names.drop_last() =~= none);
    assert(names.last() == name);
    assert(request::resolved_roots(setting, none) == Ok::<_, ResolverFailureView>(
        search::nothing(),
    ));
    assert(!table::has(search::nothing().selected, name));
    if choice::chosen(setting, name, None) == Ok::<_, ResolverFailureView>(m) && m.depends == seq![
        c,
    ] && c.name != name && !system_has(system, c) && choice::chosen(setting, c.name, Some(c))
        == Err::<ManifestView, _>(f) {
        let path = none.push(name);
        let u = search::with_selected(search::nothing(), name, m);
        lemma_begins(setting, name, m);
        assert(m.depends.drop_last() =~= Seq::empty());
        assert(m.depends.last() == c);
        assert(search::resolved_all(setting, m.depends.drop_last(), path, u) == Ok::<
            _,
            ResolverFailureView,
        >(u));
        table::lemma_put(search::nothing().selected, name, m);
        assert(!table::has(search::nothing().selected, c.name));
        assert(!table::has(u.selected, c.name));
        assert(!path.contains(c.name));
        assert(search::system_version(setting, c.name, Some(c)) is None);
        assert(search::resolved(setting, c.name, Some(c), false, path, u) == Err::<State, _>(f));
    }
}

/// Two packages that depend on each other have no plan: the circle is reported, with the package that
/// was asked for.
pub proof fn lemma_circle_refused(
    upgrade: bool,
    name: Text,
    t: Index,
    installed: Seq<InstalledEntryView>,
    lockfile: LockfileInputView,
    system: Option<Seq<(Text, Text)>>,
    m: ManifestView,
    c: DepConstraintView,
    n: ManifestView,
    d: DepConstraintView,
)
    requires
        choice::chosen(setting_for(upgrade, t, installed, lockfile, system), name, None) == Ok::<
            _,
            ResolverFailureView,
        >(m),
        m.depends == seq![c],
        c.name != name,
        !system_has(system, c),
        choice::chosen(setting_for(upgrade, t, installed, lockfile, system), c.name, Some(c))
            == Ok::<_, ResolverFailureView>(n),
        n.depends == seq![d],
        d.name == name,
    ensures
        request::plan_for_request(request_for(upgrade, name), t, installed, lockfile, system)
            matches Err(f) && f.kind == FailureKind::Cycle && f.package == Some(name),
{
    let setting = setting_for(upgrade, t, installed, lockfile, system);
    let path = Seq::<Text>::empty().push(name);
    let u = search::with_selected(search::nothing(), name, m);
    lemma_begins(setting, name, m);
    assert(m.depends.drop_last() =~= Seq::empty());
    assert(m.depends.last() == c);
    assert(search::resolved_all(setting, m.depends.drop_last(), path, u) == Ok::<
        _,
        ResolverFailureView,
    >(u));
    table::lemma_put(search::nothing().selected, name, m);
    assert(!table::has(search::nothing().selected, c.name));
    assert(!table::has(u.selected, c.name));
    assert(!path.contains(c.name));
    assert(search::system_version(setting, c.name, Some(c)) is None);
    let inner = path.push(c.name);
    let v = search::with_selected(u, c.name, n);
    assert(n.depends.drop_last() =~= Seq::empty());
    assert(n.depends.last() == d);
    assert(search::resolved_all(setting, n.depends.drop_last(), inner, v) == Ok::<
        _,
        ResolverFailureView,
    >(v));
    assert(inner[0] == name);
    assert(inner.contains(name));
    assert(search::resolved(setting, d.name, Some(d), false, inner, v) is Err);
    assert(search::resolved_all(setting, n.depends, inner, v) is Err);
    assert(search::resolved(setting, c.name, Some(c), false, path, u) is Err);
}

/// A package that conflicts with its own dependency has no plan: the conflict is reported.
pub proof fn lemma_conflict_refused(
    upgrade: bool,
    name: Text,
    t: Index,
    installed: Seq<InstalledEntryView>,
    lockfile: LockfileInputView,
    system: Option<Seq<(Text, Text)>>,
    m: ManifestView,
    c: DepConstraintView,
    n: ManifestView,
)
    requires
        choice::chosen(setting_for(upgrade, t, installed, lockfile, system), name, None) == Ok::<
            _,
            ResolverFailureView,
        >(m),
        m.depends == seq![c],
        m.depends_any.len() == 0,
        m.conflicts.contains(c.name),
        c.name != name,
        !system_has(system, c),
        choice::chosen(setting_for(upgrade, t, installed, lockfile, system), c.name, Some(c))
            == Ok::<_, ResolverFailureView>(n),
        plain(n),
    ensures
        request::plan_for_request(request_for(upgrade, name), t, installed, lockfile, system)
            matches Err(f) && f.kind == FailureKind::Conflict && f.package == Some(name) && (
        f.conflicting_packages matches Some(list) && list.len() == 1 && (list[0] == c.name
            || list[0] == name) && m.conflicts.contains(list[0])),
{
    reveal(Seq::filter);
    let setting = setting_for(upgrade, t, installed, lockfile, system);
    let path = Seq::<Text>::empty().push(name);
    let u = search::with_selected(search::nothing(), name, m);
    lemma_begins(setting, name, m);
    lemma_dependency_resolved(setting, name, m, c, n);
    assert(m.depends.drop_last() =~= Seq::empty());
    assert(m.depends.last() == c);
    assert(search::resolved_all(setting, m.depends.drop_last(), path, u) == Ok::<
        _,
        ResolverFailureView,
    >(u));
    let s = pair(name, m, c.name, n);
    lemma_pair(name, m, c.name, n);
    let settled = settle::settle(s);
    assert(settled.satisfied =~= Seq::empty());
    let sel = settled.selected;
    assert(sel == s.selected);
    let pred = order::selected_name(sel);
    let list = order::clashes(sel, m);
    crate::lists::lemma_filter(m.conflicts, pred);
    assert(table::has(sel, c.name));
    assert(list.contains(c.name));
    assert(list.contains(list[0]));
    assert(table::has(sel, list[0]));
    assert(order::clashes(sel, n).len() == 0);
    if sel[0].0 == name {
        assert(order::conflict_from(sel, 0) == Some((name, list[0])));
    } else {
        assert(order::conflict_from(sel, 1) == Some((name, list[0])));
        assert(order::conflict_from(sel, 0) == Some((name, list[0])));
    }
}

} // verus!
