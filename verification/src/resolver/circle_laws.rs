//! Plans hold no circular dependency, so that dependencies can come first.

use vstd::prelude::*;

use crate::dep_constraint;
use crate::dep_constraint::DepConstraintView;
use crate::lists;
use crate::manifest::ManifestView;
use crate::resolver::available;
use crate::resolver::available::Index;
use crate::resolver::choice::Setting;
use crate::resolver::circle;
use crate::resolver::laws;
use crate::resolver::order;
use crate::resolver::order::{Selected, StepKey};
use crate::resolver::order_laws;
use crate::resolver::plan::{PlanStepView, PlanView};
use crate::resolver::request;
use crate::resolver::search::State;
use crate::resolver::settle;
use crate::storage::installed::InstalledEntryView;
use crate::table;
use crate::text::Text;
use crate::version;

verus! {

/// No plan is made for a circular dependency: no selected name depends on itself, directly or
/// through others.
pub proof fn lemma_no_circular_dependency(
    setting: Setting,
    names: Seq<Text>,
    s: State,
    plan: PlanView,
    name: Text,
)
    requires
        laws::makes_plan(setting, names, s, plan),
    ensures
        !circle::circular(s.selected, name),
{
    circle::lemma_no_circle(s.selected, 0, name);
}

/// Whether no two versions of a package rank equal.
pub open spec fn ranks_apart(t: Index) -> bool {
    forall|n: Text, j: int, k: int|
        #![trigger available::versions_of(t, n)[j], available::versions_of(t, n)[k]]
        0 <= j < k < available::versions_of(t, n).len() ==> !version::version_eq(
            available::versions_of(t, n)[j].version,
            available::versions_of(t, n)[k].version,
        )
}

/// Whether the keys of the steps tell the selected manifests apart.
pub open spec fn keys_apart(selected: Selected) -> bool {
    forall|a: ManifestView, b: ManifestView|
        #![trigger order_laws::selects(selected, a), order_laws::selects(selected, b)]
        order_laws::selects(selected, a) && order_laws::selects(selected, b) && order::key_of(a)
            == order::key_of(b) ==> a == b
}

/// Where no two versions of a package rank equal, the keys of the steps tell the selected manifests
/// apart.
pub proof fn lemma_keys_apart(setting: Setting, names: Seq<Text>, s: State, plan: PlanView)
    requires
        available::well_indexed(setting.available),
        ranks_apart(setting.available),
        laws::makes_plan(setting, names, s, plan),
    ensures
        keys_apart(s.selected),
{
    laws::lemma_selected_allowed(setting, names, s, plan);
    assert forall|a: ManifestView, b: ManifestView|
        #![trigger order_laws::selects(s.selected, a), order_laws::selects(s.selected, b)]
        order_laws::selects(s.selected, a) && order_laws::selects(s.selected, b) && order::key_of(a)
            == order::key_of(b) implies a == b by {
        let n = choose|n: Text| #[trigger] table::get(s.selected, n) == Some(a);
        let o = choose|o: Text| #[trigger] table::get(s.selected, o) == Some(b);
        let list = available::versions_of(setting.available, a.name);
        assert(laws::in_index(setting.available, a) && laws::in_index(setting.available, b));
        let i = choose|i: int| 0 <= i < list.len() && list[i] == a;
        let j = choose|j: int| 0 <= j < list.len() && list[j] == b;
        if i < j {
            assert(!version::version_eq(list[i].version, list[j].version));
        } else if j < i {
            assert(!version::version_eq(list[j].version, list[i].version));
        }
    }
}

/// Whether the dependency is met by a step before the `i`th, or by the system.
pub open spec fn dependency_first(
    setting: Setting,
    s: State,
    steps: Seq<PlanStepView>,
    i: int,
    d: DepConstraintView,
) -> bool {
    ||| exists|v: ManifestView, j: int|
        #![trigger order::step_of(v, setting.installed), steps[j]]
        0 <= j < i && steps[j] == order::step_of(v, setting.installed)
            && dep_constraint::satisfied(d, v.version) && laws::stands_for(
            setting.available,
            v,
            d.name,
        ) && laws::in_index(setting.available, v)
    ||| table::get(s.satisfied, d.name) matches Some(v) && dep_constraint::satisfied(d, v)
}

/// Whether step `i` is that of a selected manifest and comes after all that is selected for the
/// dependencies of that manifest.
spec fn after_needs(
    selected: Selected,
    installed: Seq<InstalledEntryView>,
    steps: Seq<PlanStepView>,
    i: int,
) -> bool {
    exists|m: ManifestView| #[trigger]
        order_laws::selects(selected, m) && steps[i] == order::step_of(m, installed) && needs_before(
            selected,
            steps,
            i,
            m,
        )
}

/// Whether all that is selected for the dependencies of the manifest is among the first `i` steps.
spec fn needs_before(
    selected: Selected,
    steps: Seq<PlanStepView>,
    i: int,
    m: ManifestView,
) -> bool {
    forall|v: ManifestView| #[trigger]
        order_laws::needs(selected, m, v) ==> order::planned(steps.take(i), order::key_of(v))
}

/// Whether each step comes after what it needs.
spec fn all_after_needs(
    selected: Selected,
    installed: Seq<InstalledEntryView>,
    steps: Seq<PlanStepView>,
) -> bool {
    forall|i: int| 0 <= i < steps.len() ==> #[trigger] after_needs(selected, installed, steps, i)
}

/// Whether nothing is circular, and the keys of the steps tell the selected manifests apart.
spec fn plain(selected: Selected) -> bool {
    &&& keys_apart(selected)
    &&& forall|n: Text| !#[trigger] circle::circular(selected, n)
}

/// What a name that is not blocked depends on is not blocked either, once the name is open.
proof fn lemma_dependency_free(selected: Selected, open: Seq<StepKey>, name: Text, dep: Text)
    requires
        plain(selected),
        !order::blocked(selected, open, name),
        table::get(selected, name) matches Some(m) && request::mentions(m.depends, dep),
    ensures
        !order::blocked(
            selected,
            open.push(order::key_of(table::get(selected, name)->0)),
            dep,
        ),
{
    let m = table::get(selected, name)->0;
    let key = order::key_of(m);
    let inner = open.push(key);
    if order::blocked(selected, inner, dep) {
        let n = choose|n: Text| #[trigger]
            order::is_open(selected, inner, n) && (n == dep || circle::leads(selected, dep, n));
        let u = table::get(selected, n)->0;
        if n != dep {
            let p = choose|p: Seq<Text>| #[trigger]
                circle::name_chain(selected, p) && p.len() >= 2 && p[0] == dep && p.last() == n;
            let first: int = 0;
            assert(circle::name_edge(selected, p[first], p[first + 1]));
        }
        assert(circle::name_edge(selected, name, dep));
        lists::lemma_push_contains(open, key, order::key_of(u));
        if open.contains(order::key_of(u)) {
            if n == dep {
                circle::lemma_leads_one(selected, name, n);
            } else {
                circle::lemma_leads_before(selected, name, dep, n);
            }
            assert(order::is_open(selected, open, n));
        } else {
            assert(order_laws::selects(selected, u) && order_laws::selects(selected, m));
            assert(u == m);
            assert(circle::name_edge(selected, n, dep));
            if n == dep {
                circle::lemma_leads_one(selected, n, n);
            } else {
                circle::lemma_leads_on(selected, dep, n, dep);
            }
            assert(circle::circular(selected, dep));
        }
    }
}

/// The step of a manifest comes after what it needs, if that has its steps.
proof fn lemma_step_after_needs(
    selected: Selected,
    installed: Seq<InstalledEntryView>,
    m: ManifestView,
    steps: Seq<PlanStepView>,
)
    requires
        order_laws::selects(selected, m),
        all_after_needs(selected, installed, steps),
        forall|v: ManifestView| #[trigger]
            order_laws::needs(selected, m, v) ==> order::planned(steps, order::key_of(v)),
    ensures
        all_after_needs(selected, installed, steps.push(order::step_of(m, installed))),
        order::planned(steps.push(order::step_of(m, installed)), order::key_of(m)),
        steps.is_prefix_of(steps.push(order::step_of(m, installed))),
{
    let r = steps.push(order::step_of(m, installed));
    let n = steps.len() as int;
    assert(order::step_key(r[n]) == order::key_of(m));
    assert(steps =~= r.subrange(0, n));
    assert forall|i: int| 0 <= i < r.len() implies #[trigger] after_needs(
        selected,
        installed,
        r,
        i,
    ) by {
        if i < n {
            assert(after_needs(selected, installed, steps, i));
            let u = choose|u: ManifestView| #[trigger]
                order_laws::selects(selected, u) && steps[i] == order::step_of(u, installed)
                    && needs_before(selected, steps, i, u);
            assert(r.take(i) =~= steps.take(i));
            assert(needs_before(selected, r, i, u));
            assert(order_laws::selects(selected, u) && r[i] == order::step_of(u, installed));
        } else {
            assert(r.take(i) =~= steps);
            assert(needs_before(selected, r, i, m));
            assert(order_laws::selects(selected, m) && r[i] == order::step_of(m, installed));
        }
    }
}

proof fn lemma_visited(
    selected: Selected,
    installed: Seq<InstalledEntryView>,
    name: Text,
    open: Seq<StepKey>,
    steps: Seq<PlanStepView>,
)
    requires
        plain(selected),
        !order::blocked(selected, open, name),
        all_after_needs(selected, installed, steps),
    ensures
        ({
            let r = order::visited(selected, installed, name, open, steps);
            &&& steps.is_prefix_of(r)
            &&& all_after_needs(selected, installed, r)
            &&& table::get(selected, name) matches Some(m) ==> order::planned(r, order::key_of(m))
        }),
    decreases order::unopened(selected, open), 0nat, 0nat,
{
    assert(steps =~= steps.subrange(0, steps.len() as int));
    if let Some(m) = table::get(selected, name) {
        let key = order::key_of(m);
        if open.contains(key) {
            assert(order::is_open(selected, open, name));
        } else if !order::planned(steps, key) {
            let inner = open.push(key);
            order::lemma_unopened(selected, open, name);
            assert forall|i: int| 0 <= i < m.depends.len() implies !order::blocked(
                selected,
                inner,
                (#[trigger] m.depends[i]).name,
            ) by {
                assert(request::mentions(m.depends, m.depends[i].name));
                lemma_dependency_free(selected, open, name, m.depends[i].name);
            }
            lemma_visited_all(selected, installed, m.depends, inner, steps);
            let a = order::visited_all(selected, installed, m.depends, inner, steps);
            lemma_visited_groups(selected, installed, m.depends_any, inner, a);
            let b = order::visited_groups(selected, installed, m.depends_any, inner, a);
            assert forall|v: ManifestView| #[trigger]
                order_laws::needs(selected, m, v) implies order::planned(b, order::key_of(v)) by {
                let i = choose|i: int|
                    0 <= i < m.depends.len() && table::get(
                        selected,
                        (#[trigger] m.depends[i]).name,
                    ) == Some(v);
                assert(has_step(selected, a, m.depends[i].name));
                order_laws::lemma_planned_prefix(a, b, order::key_of(v));
            }
            assert(order_laws::selects(selected, m));
            lemma_step_after_needs(selected, installed, m, b);
            let r = b.push(order::step_of(m, installed));
            lemma_prefix_transitive(steps, a, b);
            lemma_prefix_transitive(steps, b, r);
        }
    }
}

/// Whether what is selected for the name has a step.
spec fn has_step(selected: Selected, steps: Seq<PlanStepView>, name: Text) -> bool {
    table::get(selected, name) matches Some(v) ==> order::planned(steps, order::key_of(v))
}

proof fn lemma_prefix_transitive(
    a: Seq<PlanStepView>,
    b: Seq<PlanStepView>,
    c: Seq<PlanStepView>,
)
    requires
        a.is_prefix_of(b),
        b.is_prefix_of(c),
    ensures
        a.is_prefix_of(c),
{
    assert forall|i: int| 0 <= i < a.len() implies a[i] == c[i] by {
        assert(a[i] == b[i]);
        assert(b[i] == c[i]);
    }
    assert(a =~= c.subrange(0, a.len() as int));
}

proof fn lemma_visited_all(
    selected: Selected,
    installed: Seq<InstalledEntryView>,
    deps: Seq<DepConstraintView>,
    open: Seq<StepKey>,
    steps: Seq<PlanStepView>,
)
    requires
        plain(selected),
        forall|i: int|
            0 <= i < deps.len() ==> !order::blocked(selected, open, (#[trigger] deps[i]).name),
        all_after_needs(selected, installed, steps),
    ensures
        ({
            let r = order::visited_all(selected, installed, deps, open, steps);
            &&& steps.is_prefix_of(r)
            &&& all_after_needs(selected, installed, r)
            &&& forall|i: int|
                0 <= i < deps.len() ==> has_step(selected, r, (#[trigger] deps[i]).name)
        }),
    decreases order::unopened(selected, open), 1nat, deps.len(),
{
    assert(steps =~= steps.subrange(0, steps.len() as int));
    if deps.len() > 0 {
        let front = deps.drop_last();
        let last = deps.last();
        assert forall|i: int| 0 <= i < front.len() implies !order::blocked(
            selected,
            open,
            (#[trigger] front[i]).name,
        ) by {
            assert(front[i] == deps[i]);
        }
        lemma_visited_all(selected, installed, front, open, steps);
        let a = order::visited_all(selected, installed, front, open, steps);
        assert(last == deps[deps.len() - 1]);
        lemma_visited(selected, installed, last.name, open, a);
        let b = order::visited(selected, installed, last.name, open, a);
        lemma_prefix_transitive(steps, a, b);
        assert forall|i: int| 0 <= i < deps.len() implies has_step(
            selected,
            b,
            (#[trigger] deps[i]).name,
        ) by {
            if i < front.len() {
                assert(front[i] == deps[i]);
                assert(has_step(selected, a, front[i].name));
                if let Some(v) = table::get(selected, deps[i].name) {
                    order_laws::lemma_planned_prefix(a, b, order::key_of(v));
                }
            }
        }
    }
}

proof fn lemma_visited_free(
    selected: Selected,
    installed: Seq<InstalledEntryView>,
    deps: Seq<DepConstraintView>,
    open: Seq<StepKey>,
    steps: Seq<PlanStepView>,
)
    requires
        plain(selected),
        all_after_needs(selected, installed, steps),
    ensures
        ({
            let r = order::visited_free(selected, installed, deps, open, steps);
            &&& steps.is_prefix_of(r)
            &&& all_after_needs(selected, installed, r)
        }),
    decreases order::unopened(selected, open), 1nat, deps.len(),
{
    assert(steps =~= steps.subrange(0, steps.len() as int));
    if deps.len() > 0 {
        let front = deps.drop_last();
        let last = deps.last();
        lemma_visited_free(selected, installed, front, open, steps);
        let a = order::visited_free(selected, installed, front, open, steps);
        if !order::blocked(selected, open, last.name) {
            lemma_visited(selected, installed, last.name, open, a);
            lemma_prefix_transitive(
                steps,
                a,
                order::visited(selected, installed, last.name, open, a),
            );
        }
    }
}

proof fn lemma_visited_groups(
    selected: Selected,
    installed: Seq<InstalledEntryView>,
    groups: Seq<Seq<DepConstraintView>>,
    open: Seq<StepKey>,
    steps: Seq<PlanStepView>,
)
    requires
        plain(selected),
        all_after_needs(selected, installed, steps),
    ensures
        ({
            let r = order::visited_groups(selected, installed, groups, open, steps);
            &&& steps.is_prefix_of(r)
            &&& all_after_needs(selected, installed, r)
        }),
    decreases order::unopened(selected, open), 2nat, groups.len(),
{
    assert(steps =~= steps.subrange(0, steps.len() as int));
    if groups.len() > 0 {
        let front = groups.drop_last();
        lemma_visited_groups(selected, installed, front, open, steps);
        let a = order::visited_groups(selected, installed, front, open, steps);
        lemma_visited_free(selected, installed, groups.last(), open, a);
        lemma_prefix_transitive(
            steps,
            a,
            order::visited_free(selected, installed, groups.last(), open, a),
        );
    }
}

proof fn lemma_visited_names(selected: Selected, installed: Seq<InstalledEntryView>, n: nat)
    requires
        plain(selected),
        n <= selected.len(),
    ensures
        all_after_needs(selected, installed, order::visited_names(selected, installed, n)),
    decreases n,
{
    if n > 0 {
        let m = (n - 1) as nat;
        lemma_visited_names(selected, installed, m);
        let none = Seq::<StepKey>::empty();
        assert forall|x: Text| !#[trigger] order::is_open(selected, none, x) by {}
        lemma_visited(
            selected,
            installed,
            selected[m as int].0,
            none,
            order::visited_names(selected, installed, m),
        );
    }
}

/// Whether each of the constraints, which are an alternative of `m`, is met by a step before the
/// `i`th or by the system, except for what leads back to `m`.
pub open spec fn alternative_first(
    setting: Setting,
    s: State,
    steps: Seq<PlanStepView>,
    i: int,
    m: ManifestView,
    group: Seq<DepConstraintView>,
) -> bool {
    forall|k: int|
        0 <= k < group.len() ==> dependency_first(setting, s, steps, i, #[trigger] group[k]) || (
        table::get(s.selected, group[k].name) matches Some(v) && order_laws::on_cycle(
            s.selected,
            v,
            m,
        ))
}

/// A constraint that is met is met by an earlier step, if what is selected for it has one.
proof fn lemma_met_before(
    setting: Setting,
    names: Seq<Text>,
    s: State,
    plan: PlanView,
    i: int,
    d: DepConstraintView,
)
    requires
        available::well_indexed(setting.available),
        laws::makes_plan(setting, names, s, plan),
        keys_apart(s.selected),
        0 <= i < plan.steps.len(),
        settle::met(s, d),
        table::get(s.selected, d.name) matches Some(v) && order::planned(
            plan.steps.take(i),
            order::key_of(v),
        ),
    ensures
        dependency_first(setting, s, plan.steps, i, d),
{
    let steps = plan.steps;
    let selected = s.selected;
    laws::lemma_plan_ordered(setting, names, s, plan);
    laws::lemma_selected_allowed(setting, names, s, plan);
    let v = table::get(selected, d.name)->0;
    assert(order_laws::selects(selected, v));
    let front = steps.take(i);
    let j = choose|j: int|
        0 <= j < front.len() && order::step_key(#[trigger] front[j]) == order::key_of(v);
    assert(steps[j] == front[j]);
    let u = laws::lemma_step_manifest(selected, setting.installed, j);
    assert(order_laws::selects(selected, u) && order_laws::selects(selected, v));
    assert(u == v);
    assert(laws::in_index(setting.available, v));
    assert(steps[j] == order::step_of(v, setting.installed));
}

/// Dependencies come before dependents: every step of a plan is of a selected package, and for each
/// of its dependencies there is an earlier step that meets it, or the system meets it. Two versions
/// that rank equal share one step, so no such two are selected.
pub proof fn lemma_dependencies_before_dependents(
    setting: Setting,
    names: Seq<Text>,
    s: State,
    plan: PlanView,
    i: int,
)
    requires
        available::well_indexed(setting.available),
        laws::makes_plan(setting, names, s, plan),
        keys_apart(s.selected),
        0 <= i < plan.steps.len(),
    ensures
        exists|m: ManifestView| #[trigger]
            order_laws::selects(s.selected, m) && plan.steps[i] == order::step_of(
                m,
                setting.installed,
            ) && forall|k: int|
                0 <= k < m.depends.len() ==> dependency_first(
                    setting,
                    s,
                    plan.steps,
                    i,
                    #[trigger] m.depends[k],
                ),
{
    let steps = plan.steps;
    let selected = s.selected;
    laws::lemma_plan_ordered(setting, names, s, plan);
    laws::lemma_dependencies_met(setting, names, s, plan);
    assert forall|n: Text| !#[trigger] circle::circular(selected, n) by {
        lemma_no_circular_dependency(setting, names, s, plan, n);
    }
    lemma_visited_names(selected, setting.installed, selected.len());
    assert(after_needs(selected, setting.installed, steps, i));
    let m = choose|m: ManifestView| #[trigger]
        order_laws::selects(selected, m) && steps[i] == order::step_of(m, setting.installed)
            && needs_before(selected, steps, i, m);
    let own = choose|own: Text| #[trigger] table::get(selected, own) == Some(m);
    assert(settle::dependencies_met(s, m));
    assert forall|k: int| 0 <= k < m.depends.len() implies dependency_first(
        setting,
        s,
        steps,
        i,
        #[trigger] m.depends[k],
    ) by {
        let d = m.depends[k];
        assert(settle::met(s, d));
        if let Some(v) = table::get(selected, d.name) {
            assert(order_laws::needs(selected, m, v));
            lemma_met_before(setting, names, s, plan, i, d);
        }
    }
}

/// Of what has alternatives, all constraints of one are met by earlier steps or by the system, except
/// what leads back to the package.
pub proof fn lemma_alternative_before_dependent(
    setting: Setting,
    names: Seq<Text>,
    s: State,
    plan: PlanView,
    i: int,
)
    requires
        available::well_indexed(setting.available),
        laws::makes_plan(setting, names, s, plan),
        keys_apart(s.selected),
        0 <= i < plan.steps.len(),
    ensures
        exists|m: ManifestView| #[trigger]
            order_laws::selects(s.selected, m) && plan.steps[i] == order::step_of(
                m,
                setting.installed,
            ) && (m.depends_any.len() > 0 ==> exists|g: int|
                0 <= g < m.depends_any.len() && #[trigger] alternative_first(
                    setting,
                    s,
                    plan.steps,
                    i,
                    m,
                    m.depends_any[g],
                )),
{
    let steps = plan.steps;
    let selected = s.selected;
    laws::lemma_plan_ordered(setting, names, s, plan);
    laws::lemma_dependencies_met(setting, names, s, plan);
    order_laws::lemma_dependencies_first(selected, setting.installed);
    assert(order_laws::well_placed(selected, setting.installed, steps, i));
    let m = choose|m: ManifestView| #[trigger]
        order_laws::selects(selected, m) && steps[i] == order::step_of(m, setting.installed)
            && order_laws::dependencies_before(selected, steps, i, m);
    let own = choose|own: Text| #[trigger] table::get(selected, own) == Some(m);
    assert(settle::dependencies_met(s, m));
    if m.depends_any.len() > 0 {
        let g = choose|g: int|
            0 <= g < m.depends_any.len() && settle::all_met(s, #[trigger] m.depends_any[g]);
        let group = m.depends_any[g];
        assert forall|k: int| 0 <= k < group.len() implies dependency_first(
            setting,
            s,
            steps,
            i,
            #[trigger] group[k],
        ) || (table::get(selected, group[k].name) matches Some(v) && order_laws::on_cycle(
            selected,
            v,
            m,
        )) by {
            assert(settle::met(s, group[k]));
            if let Some(v) = table::get(selected, group[k].name) {
                assert(table::get(selected, m.depends_any[g][k].name) == Some(v));
                assert(order_laws::may_use(selected, m, v));
                assert(order_laws::edge(selected, m, v));
                if order::planned(steps.take(i), order::key_of(v)) {
                    lemma_met_before(setting, names, s, plan, i, group[k]);
                }
            }
        }
        assert(alternative_first(setting, s, steps, i, m, m.depends_any[g]));
    }
}

} // verus!
