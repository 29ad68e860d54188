//! What holds of the order of the steps in every plan.

use vstd::prelude::*;

use crate::dep_constraint::DepConstraintView;
use crate::lists;
use crate::manifest::ManifestView;
use crate::resolver::circle;
use crate::resolver::order;
use crate::resolver::order::{Selected, StepKey};
use crate::resolver::plan::{PlanAction, PlanStepView};
use crate::storage::installed;
use crate::storage::installed::InstalledEntryView;
use crate::table;
use crate::text::Text;

verus! {

/// Whether the manifest is selected for a name.
pub open spec fn selects(selected: Selected, m: ManifestView) -> bool {
    exists|n: Text| #[trigger] table::get(selected, n) == Some(m)
}

/// Whether `v` is selected for a dependency of `u`.
pub open spec fn needs(selected: Selected, u: ManifestView, v: ManifestView) -> bool {
    exists|i: int|
        0 <= i < u.depends.len() && table::get(selected, (#[trigger] u.depends[i]).name) == Some(v)
}

/// Whether `v` is selected for a constraint in one of the alternatives of `u`.
pub open spec fn may_use(selected: Selected, u: ManifestView, v: ManifestView) -> bool {
    exists|i: int, j: int|
        0 <= i < u.depends_any.len() && 0 <= j < u.depends_any[i].len() && table::get(
            selected,
            (#[trigger] u.depends_any[i][j]).name,
        ) == Some(v)
}

/// Whether `v` is selected for a dependency of `u`, or for a constraint in one of its alternatives.
pub open spec fn edge(selected: Selected, u: ManifestView, v: ManifestView) -> bool {
    needs(selected, u, v) || may_use(selected, u, v)
}

/// Whether each manifest in the list has an edge to the next.
pub open spec fn chain(selected: Selected, p: Seq<ManifestView>) -> bool {
    forall|i: int| 0 <= i < p.len() - 1 ==> edge(selected, #[trigger] p[i], p[i + 1])
}

/// Whether edges lead from `a` to `b`.
pub open spec fn reaches(selected: Selected, a: ManifestView, b: ManifestView) -> bool {
    exists|p: Seq<ManifestView>| #[trigger]
        chain(selected, p) && p.len() > 0 && p[0] == a && p.last() == b
}

/// Whether `v` leads back to `m`, which has an edge to it. Manifests with one key count as one.
pub open spec fn on_cycle(selected: Selected, v: ManifestView, m: ManifestView) -> bool {
    exists|u: ManifestView, w: ManifestView| #[trigger]
        reaches(selected, v, u) && #[trigger] reaches(selected, w, m) && selects(selected, w)
            && order::key_of(u) == order::key_of(w)
}

/// Whether all the manifests are selected.
spec fn all_selected(selected: Selected, stack: Seq<ManifestView>) -> bool {
    forall|i: int| 0 <= i < stack.len() ==> selects(selected, #[trigger] stack[i])
}

/// Whether all that `m` has an edge to is among the first `i` steps, except on a cycle.
pub open spec fn dependencies_before(
    selected: Selected,
    steps: Seq<PlanStepView>,
    i: int,
    m: ManifestView,
) -> bool {
    forall|v: ManifestView| #[trigger]
        edge(selected, m, v) ==> order::planned(steps.take(i), order::key_of(v)) || on_cycle(
            selected,
            v,
            m,
        )
}

/// Whether step `i` is that of a selected manifest and comes after all that it depends on.
pub open spec fn well_placed(
    selected: Selected,
    installed: Seq<InstalledEntryView>,
    steps: Seq<PlanStepView>,
    i: int,
) -> bool {
    exists|m: ManifestView| #[trigger]
        selects(selected, m) && steps[i] == order::step_of(m, installed) && dependencies_before(
            selected,
            steps,
            i,
            m,
        )
}

/// Whether all steps are well placed.
pub open spec fn in_order(
    selected: Selected,
    installed: Seq<InstalledEntryView>,
    steps: Seq<PlanStepView>,
) -> bool {
    forall|i: int|
        0 <= i < steps.len() ==> #[trigger] well_placed(selected, installed, steps, i)
}

/// Whether no two steps have the same key.
pub open spec fn distinct(steps: Seq<PlanStepView>) -> bool {
    forall|i: int, j: int|
        #![trigger steps[i], steps[j]]
        0 <= i < j < steps.len() ==> order::step_key(steps[i]) != order::step_key(steps[j])
}

/// The keys of the manifests.
spec fn keys(stack: Seq<ManifestView>) -> Seq<StepKey> {
    stack.map_values(|m: ManifestView| order::key_of(m))
}

/// What visiting makes of steps: it adds to them, in order, none of the open keys.
spec fn goes_on(
    selected: Selected,
    installed: Seq<InstalledEntryView>,
    stack: Seq<ManifestView>,
    before: Seq<PlanStepView>,
    after: Seq<PlanStepView>,
) -> bool {
    &&& before.is_prefix_of(after)
    &&& in_order(selected, installed, after)
    &&& distinct(after)
    &&& forall|k: StepKey|
        keys(stack).contains(k) && #[trigger] order::planned(after, k) ==> order::planned(
            before,
            k,
        )
}

/// Whether what is selected for the name has a step or is open.
spec fn settled(
    selected: Selected,
    stack: Seq<ManifestView>,
    steps: Seq<PlanStepView>,
    name: Text,
) -> bool {
    table::get(selected, name) matches Some(v) ==> order::planned(steps, order::key_of(v)) || keys(
        stack,
    ).contains(order::key_of(v))
}

/// Whether edges lead from the manifest to one with an open key.
spec fn leads_back(selected: Selected, stack: Seq<ManifestView>, v: ManifestView) -> bool {
    exists|u: ManifestView| #[trigger]
        reaches(selected, v, u) && keys(stack).contains(order::key_of(u))
}

proof fn lemma_reaches_itself(selected: Selected, v: ManifestView)
    ensures
        reaches(selected, v, v),
{
    let p = seq![v];
    assert(chain(selected, p) && p.len() > 0 && p[0] == v && p.last() == v);
}

/// Where a name leads to another, so do the manifests that are selected for them.
proof fn lemma_names_reach(selected: Selected, a: Text, b: Text)
    requires
        circle::leads(selected, a, b),
    ensures
        reaches(selected, table::get(selected, a)->0, table::get(selected, b)->0),
{
    let p = choose|p: Seq<Text>| #[trigger]
        circle::name_chain(selected, p) && p.len() >= 2 && p[0] == a && p.last() == b;
    let q = Seq::new(p.len(), |i: int| table::get(selected, p[i])->0);
    assert(chain(selected, q)) by {
        assert forall|i: int| 0 <= i < q.len() - 1 implies edge(
            selected,
            #[trigger] q[i],
            q[i + 1],
        ) by {
            assert(circle::name_edge(selected, p[i], p[i + 1]));
            let m = q[i];
            let k = choose|k: int| 0 <= k < m.depends.len() && (#[trigger] m.depends[k]).name == p[i
                + 1];
            assert(table::get(selected, m.depends[k].name) == Some(q[i + 1]));
            assert(needs(selected, q[i], q[i + 1]));
        }
    }
    assert(q.len() > 0 && q[0] == table::get(selected, a)->0 && q.last() == table::get(
        selected,
        b,
    )->0);
}

/// What is selected for a blocked name leads back.
proof fn lemma_blocked(selected: Selected, stack: Seq<ManifestView>, name: Text)
    requires
        table::get(selected, name) is Some,
        order::blocked(selected, keys(stack), name),
    ensures
        leads_back(selected, stack, table::get(selected, name)->0),
{
    let v = table::get(selected, name)->0;
    let n = choose|n: Text| #[trigger]
        order::is_open(selected, keys(stack), n) && (n == name || circle::leads(selected, name, n));
    let u = table::get(selected, n)->0;
    if n == name {
        lemma_reaches_itself(selected, v);
    } else {
        lemma_names_reach(selected, name, n);
    }
    assert(reaches(selected, v, u) && keys(stack).contains(order::key_of(u)));
}

/// Steps that are added take no step away.
pub proof fn lemma_planned_prefix(a: Seq<PlanStepView>, b: Seq<PlanStepView>, k: StepKey)
    requires
        a.is_prefix_of(b),
        order::planned(a, k),
    ensures
        order::planned(b, k),
{
    let i = choose|i: int| 0 <= i < a.len() && order::step_key(#[trigger] a[i]) == k;
    assert(b[i] == a[i]);
    assert(order::step_key(b[i]) == k);
}

proof fn lemma_goes_on_transitive(
    selected: Selected,
    installed: Seq<InstalledEntryView>,
    stack: Seq<ManifestView>,
    a: Seq<PlanStepView>,
    b: Seq<PlanStepView>,
    c: Seq<PlanStepView>,
)
    requires
        goes_on(selected, installed, stack, a, b),
        goes_on(selected, installed, stack, b, c),
    ensures
        goes_on(selected, installed, stack, a, c),
{
    assert(a =~= c.subrange(0, a.len() as int)) by {
        assert forall|i: int| 0 <= i < a.len() implies a[i] == c[i] by {
            assert(a[i] == b[i]);
            assert(b[i] == c[i]);
        }
    }
}

/// The manifest at the top of the stack, once all it has edges to is settled, gets its step.
proof fn lemma_push_step(
    selected: Selected,
    installed: Seq<InstalledEntryView>,
    stack: Seq<ManifestView>,
    m: ManifestView,
    before: Seq<PlanStepView>,
    after: Seq<PlanStepView>,
)
    requires
        chain(selected, stack.push(m)),
        all_selected(selected, stack.push(m)),
        selects(selected, m),
        !keys(stack).contains(order::key_of(m)),
        !order::planned(before, order::key_of(m)),
        goes_on(selected, installed, stack.push(m), before, after),
        forall|v: ManifestView| #[trigger]
            edge(selected, m, v) ==> order::planned(after, order::key_of(v)) || leads_back(
                selected,
                stack.push(m),
                v,
            ),
    ensures
        goes_on(selected, installed, stack, before, after.push(order::step_of(m, installed))),
        order::planned(after.push(order::step_of(m, installed)), order::key_of(m)),
{
    let inner = stack.push(m);
    let step = order::step_of(m, installed);
    let r = after.push(step);
    let key = order::key_of(m);
    assert(keys(inner) =~= keys(stack).push(key));
    assert(order::step_key(step) == key);
    assert(order::step_key(r[after.len() as int]) == key);
    assert(before =~= r.subrange(0, before.len() as int)) by {
        assert forall|i: int| 0 <= i < before.len() implies before[i] == r[i] by {
            assert(before[i] == after[i]);
        }
    }
    lists::lemma_push_contains(keys(stack), key, key);
    assert(!order::planned(after, key));
    assert forall|i: int, j: int|
        #![trigger r[i], r[j]]
        0 <= i < j < r.len() implies order::step_key(r[i]) != order::step_key(r[j]) by {
        if j == after.len() {
            assert(after[i] == r[i]);
        } else {
            assert(after[i] == r[i] && after[j] == r[j]);
        }
    }
    assert forall|k: StepKey|
        keys(stack).contains(k) && #[trigger] order::planned(r, k) implies order::planned(
        before,
        k,
    ) by {
        lists::lemma_push_contains(keys(stack), key, k);
        let i = choose|i: int| 0 <= i < r.len() && order::step_key(#[trigger] r[i]) == k;
        if i < after.len() {
            assert(order::step_key(after[i]) == k);
            assert(order::planned(after, k));
        }
    }
    assert forall|i: int| 0 <= i < r.len() implies #[trigger] well_placed(
        selected,
        installed,
        r,
        i,
    ) by {
        if i < after.len() {
            assert(well_placed(selected, installed, after, i));
            let u = choose|u: ManifestView| #[trigger]
                selects(selected, u) && after[i] == order::step_of(u, installed)
                    && dependencies_before(selected, after, i, u);
            assert(r.take(i) =~= after.take(i));
            assert(dependencies_before(selected, r, i, u));
            assert(selects(selected, u) && r[i] == order::step_of(u, installed));
        } else {
            assert(r.take(i) =~= after);
            assert forall|v: ManifestView| #[trigger] edge(selected, m, v) implies order::planned(
                r.take(i),
                order::key_of(v),
            ) || on_cycle(selected, v, m) by {
                if !order::planned(after, order::key_of(v)) {
                    let u = choose|u: ManifestView| #[trigger]
                        reaches(selected, v, u) && keys(inner).contains(order::key_of(u));
                    let k = choose|k: int|
                        0 <= k < keys(inner).len() && keys(inner)[k] == order::key_of(u);
                    let p = inner.skip(k);
                    assert(order::key_of(inner[k]) == order::key_of(u));
                    assert(chain(selected, p)) by {
                        assert forall|q: int| 0 <= q < p.len() - 1 implies edge(
                            selected,
                            #[trigger] p[q],
                            p[q + 1],
                        ) by {
                            assert(p[q] == inner[q + k]);
                            assert(p[q + 1] == inner[q + k + 1]);
                        }
                    }
                    assert(p[0] == inner[k] && p.last() == m);
                    assert(selects(selected, inner[k]));
                    assert(reaches(selected, inner[k], m));
                }
            }
            assert(dependencies_before(selected, r, i, m));
            assert(selects(selected, m) && r[i] == step);
        }
    }
}

proof fn lemma_visited(
    selected: Selected,
    installed: Seq<InstalledEntryView>,
    name: Text,
    stack: Seq<ManifestView>,
    steps: Seq<PlanStepView>,
)
    requires
        chain(selected, stack),
        all_selected(selected, stack),
        stack.len() > 0 ==> (table::get(selected, name) matches Some(m) ==> edge(
            selected,
            stack.last(),
            m,
        )),
        in_order(selected, installed, steps),
        distinct(steps),
    ensures
        goes_on(
            selected,
            installed,
            stack,
            steps,
            order::visited(selected, installed, name, keys(stack), steps),
        ),
        settled(
            selected,
            stack,
            order::visited(selected, installed, name, keys(stack), steps),
            name,
        ),
    decreases order::unopened(selected, keys(stack)), 0nat, 0nat,
{
    let open = keys(stack);
    let r = order::visited(selected, installed, name, open, steps);
    assert(steps =~= steps.subrange(0, steps.len() as int));
    if let Some(m) = table::get(selected, name) {
        let key = order::key_of(m);
        if !open.contains(key) && !order::planned(steps, key) {
            let inner = stack.push(m);
            assert(keys(inner) =~= open.push(key));
            order::lemma_unopened(selected, open, name);
            assert(chain(selected, inner)) by {
                assert forall|i: int| 0 <= i < inner.len() - 1 implies edge(
                    selected,
                    #[trigger] inner[i],
                    inner[i + 1],
                ) by {
                    assert(inner[i] == stack[i]);
                    if i < stack.len() - 1 {
                        assert(inner[i + 1] == stack[i + 1]);
                    }
                }
            }
            assert(inner.last() == m);
            assert(selects(selected, m));
            assert(all_selected(selected, inner)) by {
                assert forall|i: int| 0 <= i < inner.len() implies selects(
                    selected,
                    #[trigger] inner[i],
                ) by {
                    if i < stack.len() {
                        assert(inner[i] == stack[i]);
                    }
                }
            }
            assert forall|i: int| 0 <= i < m.depends.len() implies (table::get(
                selected,
                (#[trigger] m.depends[i]).name,
            ) matches Some(v) ==> edge(selected, m, v)) by {}
            lemma_visited_all(selected, installed, m.depends, inner, steps);
            let a = order::visited_all(selected, installed, m.depends, keys(inner), steps);
            assert forall|i: int, j: int|
                0 <= i < m.depends_any.len() && 0 <= j < m.depends_any[i].len() implies (table::get(
                selected,
                (#[trigger] m.depends_any[i][j]).name,
            ) matches Some(v) ==> edge(selected, m, v)) by {}
            lemma_visited_groups(selected, installed, m.depends_any, inner, a);
            let b = order::visited_groups(selected, installed, m.depends_any, keys(inner), a);
            lemma_goes_on_transitive(selected, installed, inner, steps, a, b);
            assert forall|v: ManifestView| #[trigger] edge(selected, m, v) implies order::planned(
                b,
                order::key_of(v),
            ) || leads_back(selected, inner, v) by {
                lemma_reaches_itself(selected, v);
                if needs(selected, m, v) {
                    let i = choose|i: int|
                        0 <= i < m.depends.len() && table::get(
                            selected,
                            (#[trigger] m.depends[i]).name,
                        ) == Some(v);
                    assert(settled(selected, inner, a, m.depends[i].name));
                    if order::planned(a, order::key_of(v)) {
                        lemma_planned_prefix(a, b, order::key_of(v));
                    }
                } else {
                    let (i, j) = choose|i: int, j: int|
                        0 <= i < m.depends_any.len() && 0 <= j < m.depends_any[i].len()
                            && table::get(selected, (#[trigger] m.depends_any[i][j]).name)
                            == Some(v);
                    let n = m.depends_any[i][j].name;
                    assert(settled(selected, inner, b, n) || order::blocked(
                        selected,
                        keys(inner),
                        n,
                    ));
                    if order::blocked(selected, keys(inner), n) {
                        lemma_blocked(selected, inner, n);
                    }
                }
            }
            lemma_push_step(selected, installed, stack, m, steps, b);
            assert(r == b.push(order::step_of(m, installed)));
        }
    }
}

proof fn lemma_visited_all(
    selected: Selected,
    installed: Seq<InstalledEntryView>,
    deps: Seq<DepConstraintView>,
    stack: Seq<ManifestView>,
    steps: Seq<PlanStepView>,
)
    requires
        chain(selected, stack),
        all_selected(selected, stack),
        stack.len() > 0,
        forall|i: int|
            0 <= i < deps.len() ==> (table::get(selected, (#[trigger] deps[i]).name) matches Some(v)
                ==> edge(selected, stack.last(), v)),
        in_order(selected, installed, steps),
        distinct(steps),
    ensures
        goes_on(
            selected,
            installed,
            stack,
            steps,
            order::visited_all(selected, installed, deps, keys(stack), steps),
        ),
        forall|i: int|
            0 <= i < deps.len() ==> settled(
                selected,
                stack,
                order::visited_all(selected, installed, deps, keys(stack), steps),
                (#[trigger] deps[i]).name,
            ),
    decreases order::unopened(selected, keys(stack)), 1nat, deps.len(),
{
    assert(steps =~= steps.subrange(0, steps.len() as int));
    if deps.len() > 0 {
        let front = deps.drop_last();
        let last = deps.last();
        assert forall|i: int| 0 <= i < front.len() implies (table::get(
            selected,
            (#[trigger] front[i]).name,
        ) matches Some(v) ==> edge(selected, stack.last(), v)) by {
            assert(front[i] == deps[i]);
        }
        lemma_visited_all(selected, installed, front, stack, steps);
        let a = order::visited_all(selected, installed, front, keys(stack), steps);
        assert(last == deps[deps.len() - 1]);
        lemma_visited(selected, installed, last.name, stack, a);
        let b = order::visited(selected, installed, last.name, keys(stack), a);
        lemma_goes_on_transitive(selected, installed, stack, steps, a, b);
        assert forall|i: int| 0 <= i < deps.len() implies settled(
            selected,
            stack,
            b,
            (#[trigger] deps[i]).name,
        ) by {
            if i < front.len() {
                assert(front[i] == deps[i]);
                assert(settled(selected, stack, a, front[i].name));
                if let Some(v) = table::get(selected, deps[i].name) {
                    if order::planned(a, order::key_of(v)) {
                        lemma_planned_prefix(a, b, order::key_of(v));
                    }
                }
            }
        }
    }
}

proof fn lemma_visited_free(
    selected: Selected,
    installed: Seq<InstalledEntryView>,
    deps: Seq<DepConstraintView>,
    stack: Seq<ManifestView>,
    steps: Seq<PlanStepView>,
)
    requires
        chain(selected, stack),
        all_selected(selected, stack),
        stack.len() > 0,
        forall|i: int|
            0 <= i < deps.len() ==> (table::get(selected, (#[trigger] deps[i]).name) matches Some(v)
                ==> edge(selected, stack.last(), v)),
        in_order(selected, installed, steps),
        distinct(steps),
    ensures
        goes_on(
            selected,
            installed,
            stack,
            steps,
            order::visited_free(selected, installed, deps, keys(stack), steps),
        ),
        forall|i: int|
            0 <= i < deps.len() ==> settled(
                selected,
                stack,
                order::visited_free(selected, installed, deps, keys(stack), steps),
                (#[trigger] deps[i]).name,
            ) || order::blocked(selected, keys(stack), deps[i].name),
    decreases order::unopened(selected, keys(stack)), 1nat, deps.len(),
{
    assert(steps =~= steps.subrange(0, steps.len() as int));
    if deps.len() > 0 {
        let front = deps.drop_last();
        let last = deps.last();
        assert forall|i: int| 0 <= i < front.len() implies (table::get(
            selected,
            (#[trigger] front[i]).name,
        ) matches Some(v) ==> edge(selected, stack.last(), v)) by {
            assert(front[i] == deps[i]);
        }
        lemma_visited_free(selected, installed, front, stack, steps);
        let a = order::visited_free(selected, installed, front, keys(stack), steps);
        assert(last == deps[deps.len() - 1]);
        let b = order::visited_free(selected, installed, deps, keys(stack), steps);
        if !order::blocked(selected, keys(stack), last.name) {
            lemma_visited(selected, installed, last.name, stack, a);
            lemma_goes_on_transitive(selected, installed, stack, steps, a, b);
        }
        assert forall|i: int| 0 <= i < deps.len() implies settled(
            selected,
            stack,
            b,
            (#[trigger] deps[i]).name,
        ) || order::blocked(selected, keys(stack), deps[i].name) by {
            if i < front.len() {
                assert(front[i] == deps[i]);
                assert(settled(selected, stack, a, front[i].name) || order::blocked(
                    selected,
                    keys(stack),
                    front[i].name,
                ));
                if let Some(v) = table::get(selected, deps[i].name) {
                    if order::planned(a, order::key_of(v)) {
                        lemma_planned_prefix(a, b, order::key_of(v));
                    }
                }
            }
        }
    }
}

proof fn lemma_visited_groups(
    selected: Selected,
    installed: Seq<InstalledEntryView>,
    groups: Seq<Seq<DepConstraintView>>,
    stack: Seq<ManifestView>,
    steps: Seq<PlanStepView>,
)
    requires
        chain(selected, stack),
        all_selected(selected, stack),
        stack.len() > 0,
        forall|i: int, j: int|
            0 <= i < groups.len() && 0 <= j < groups[i].len() ==> (table::get(
                selected,
                (#[trigger] groups[i][j]).name,
            ) matches Some(v) ==> edge(selected, stack.last(), v)),
        in_order(selected, installed, steps),
        distinct(steps),
    ensures
        goes_on(
            selected,
            installed,
            stack,
            steps,
            order::visited_groups(selected, installed, groups, keys(stack), steps),
        ),
        forall|i: int, j: int|
            0 <= i < groups.len() && 0 <= j < groups[i].len() ==> settled(
                selected,
                stack,
                order::visited_groups(selected, installed, groups, keys(stack), steps),
                (#[trigger] groups[i][j]).name,
            ) || order::blocked(selected, keys(stack), groups[i][j].name),
    decreases order::unopened(selected, keys(stack)), 2nat, groups.len(),
{
    assert(steps =~= steps.subrange(0, steps.len() as int));
    if groups.len() > 0 {
        let front = groups.drop_last();
        let last = groups.last();
        assert forall|i: int, j: int|
            0 <= i < front.len() && 0 <= j < front[i].len() implies (table::get(
            selected,
            (#[trigger] front[i][j]).name,
        ) matches Some(v) ==> edge(selected, stack.last(), v)) by {
            assert(front[i][j] == groups[i][j]);
        }
        lemma_visited_groups(selected, installed, front, stack, steps);
        let a = order::visited_groups(selected, installed, front, keys(stack), steps);
        let b = order::visited_groups(selected, installed, groups, keys(stack), steps);
        let n = groups.len() - 1;
        assert forall|j: int| 0 <= j < last.len() implies (table::get(
            selected,
            (#[trigger] last[j]).name,
        ) matches Some(v) ==> edge(selected, stack.last(), v)) by {
            assert(groups[n][j] == last[j]);
        }
        lemma_visited_free(selected, installed, last, stack, a);
        lemma_goes_on_transitive(selected, installed, stack, steps, a, b);
        assert forall|i: int, j: int| 0 <= i < groups.len() && 0 <= j < groups[i].len() implies settled(
            selected,
            stack,
            b,
            (#[trigger] groups[i][j]).name,
        ) || order::blocked(selected, keys(stack), groups[i][j].name) by {
            if i < front.len() {
                assert(front[i][j] == groups[i][j]);
                assert(settled(selected, stack, a, front[i][j].name) || order::blocked(
                    selected,
                    keys(stack),
                    front[i][j].name,
                ));
                if let Some(v) = table::get(selected, groups[i][j].name) {
                    if order::planned(a, order::key_of(v)) {
                        lemma_planned_prefix(a, b, order::key_of(v));
                    }
                }
            } else {
                assert(last[j] == groups[i][j]);
            }
        }
    }
}

proof fn lemma_visited_names(
    selected: Selected,
    installed: Seq<InstalledEntryView>,
    n: nat,
)
    requires
        table::sorted(selected),
        n <= selected.len(),
    ensures
        in_order(selected, installed, order::visited_names(selected, installed, n)),
        distinct(order::visited_names(selected, installed, n)),
        forall|i: int|
            0 <= i < n ==> order::planned(
                order::visited_names(selected, installed, n),
                order::key_of((#[trigger] selected[i]).1),
            ),
    decreases n,
{
    if n > 0 {
        let m = (n - 1) as nat;
        lemma_visited_names(selected, installed, m);
        let a = order::visited_names(selected, installed, m);
        let b = order::visited_names(selected, installed, n);
        let none = Seq::<ManifestView>::empty();
        assert(keys(none) =~= Seq::empty());
        lemma_visited(selected, installed, selected[m as int].0, none, a);
        table::lemma_get(selected, m as int);
        assert forall|i: int| 0 <= i < n implies order::planned(
            b,
            order::key_of((#[trigger] selected[i]).1),
        ) by {
            if i < m {
                lemma_planned_prefix(a, b, order::key_of(selected[i].1));
            }
        }
    }
}

/// Every step of a plan is the step of a selected package and comes after all that this package
/// depends on and all that is selected of its alternatives, except what leads back to it.
pub proof fn lemma_dependencies_first(selected: Selected, installed: Seq<InstalledEntryView>)
    requires
        table::sorted(selected),
    ensures
        in_order(selected, installed, order::ordered_steps(selected, installed)),
{
    lemma_visited_names(selected, installed, selected.len());
}

/// Every selected package has exactly one step: no two steps have the same name and version.
pub proof fn lemma_one_step_each(selected: Selected, installed: Seq<InstalledEntryView>)
    requires
        table::sorted(selected),
    ensures
        distinct(order::ordered_steps(selected, installed)),
        forall|i: int|
            0 <= i < selected.len() ==> order::planned(
                order::ordered_steps(selected, installed),
                order::key_of((#[trigger] selected[i]).1),
            ),
{
    lemma_visited_names(selected, installed, selected.len());
}

/// A step upgrades if a package of its name is installed, and installs otherwise.
pub proof fn lemma_step_actions(selected: Selected, installed: Seq<InstalledEntryView>)
    requires
        table::sorted(selected),
    ensures
        forall|i: int|
            #![trigger order::ordered_steps(selected, installed)[i]]
            0 <= i < order::ordered_steps(selected, installed).len() ==> order::ordered_steps(
                selected,
                installed,
            )[i].action == if installed::is_installed(
                installed,
                order::ordered_steps(selected, installed)[i].name,
            ) {
                PlanAction::Upgrade
            } else {
                PlanAction::Install
            },
{
    let steps = order::ordered_steps(selected, installed);
    lemma_visited_names(selected, installed, selected.len());
    assert forall|i: int| 0 <= i < steps.len() implies (#[trigger] steps[i]).action
        == if installed::is_installed(installed, steps[i].name) {
        PlanAction::Upgrade
    } else {
        PlanAction::Install
    } by {
        assert(well_placed(selected, installed, steps, i));
        installed::lemma_entry_of(installed, steps[i].name);
    }
}

} // verus!
