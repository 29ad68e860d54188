//! From a selection to an ordered plan: the check for conflicts and the order of the steps.

use vstd::prelude::*;
use vstd::string::*;

use crate::dep_constraint::{DepConstraint, DepConstraintView};
use crate::failure;
use crate::failure::ResolverFailure;
use crate::lists;
use crate::manifest::{Manifest, ManifestView};
use crate::package_name::PackageName;
use crate::resolver::circle;
use crate::resolver::plan::{PlanAction, PlanStep, PlanStepView};
use crate::storage::installed;
use crate::storage::installed::InstalledEntryView;
use crate::storage::InstalledDb;
use crate::table;
use crate::text::Text;
use crate::version;
use crate::version::{SegmentKey, Version};

verus! {

/// What was selected: a manifest for each name.
pub type Selected = Seq<(Text, ManifestView)>;

/// Whether a name is selected.
pub open spec fn selected_name(selected: Selected) -> spec_fn(Text) -> bool {
    |n: Text| table::has(selected, n)
}

/// The conflicts of a manifest that are selected.
pub open spec fn clashes(selected: Selected, m: ManifestView) -> Seq<Text> {
    m.conflicts.filter(selected_name(selected))
}

/// The first selected name, not before position `i`, whose manifest conflicts with a selected
/// name, and the first such name.
pub open spec fn conflict_from(selected: Selected, i: int) -> Option<(Text, Text)>
    decreases selected.len() - i,
{
    if i >= selected.len() {
        None
    } else if clashes(selected, selected[i].1).len() > 0 {
        Some((selected[i].0, clashes(selected, selected[i].1)[0]))
    } else {
        conflict_from(selected, i + 1)
    }
}

/// The first conflict among what is selected.
pub open spec fn first_conflict(selected: Selected) -> Option<(Text, Text)> {
    conflict_from(selected, 0)
}

/// What tells the steps of a plan apart: the package and what its version ranks by.
pub type StepKey = (Text, Seq<SegmentKey>);

/// The key of the step for a manifest.
pub open spec fn key_of(m: ManifestView) -> StepKey {
    (m.name, version::keys(m.version))
}

/// The key of a step.
pub open spec fn step_key(s: PlanStepView) -> StepKey {
    (s.name, version::keys(s.version))
}

/// The keys of all selected manifests.
pub open spec fn selected_keys(selected: Selected) -> Seq<StepKey> {
    selected.map_values(|e: (Text, ManifestView)| key_of(e.1))
}

/// Whether there is a step with the key.
pub open spec fn planned(steps: Seq<PlanStepView>, key: StepKey) -> bool {
    exists|i: int| 0 <= i < steps.len() && step_key(#[trigger] steps[i]) == key
}

/// The step for a manifest: an upgrade if a package of that name is installed.
pub open spec fn step_of(m: ManifestView, installed: Seq<InstalledEntryView>) -> PlanStepView {
    PlanStepView {
        name: m.name,
        version: m.version,
        revision: m.revision,
        source: m.source,
        files: m.files,
        action: if installed::entry_of(installed, m.name) is Some {
            PlanAction::Upgrade
        } else {
            PlanAction::Install
        },
    }
}

/// Whether a key is not among those given.
pub open spec fn not_among(open: Seq<StepKey>) -> spec_fn(StepKey) -> bool {
    |k: StepKey| !open.contains(k)
}

/// How many of the selected keys are not open.
pub open spec fn unopened(selected: Selected, open: Seq<StepKey>) -> nat {
    selected_keys(selected).filter(not_among(open)).len()
}

/// Whether what is selected for the name is open.
pub open spec fn is_open(selected: Selected, open: Seq<StepKey>, name: Text) -> bool {
    table::get(selected, name) matches Some(m) && open.contains(key_of(m))
}

/// Whether the name, or one that it depends on, directly or through others, is open.
pub open spec fn blocked(selected: Selected, open: Seq<StepKey>, name: Text) -> bool {
    exists|n: Text| #[trigger]
        is_open(selected, open, n) && (n == name || circle::leads(selected, name, n))
}

/// The steps after what is selected for the name is visited, while the packages with the `open`
/// keys are being visited: first what it depends on, then what is selected of its alternatives and
/// does not in turn depend on an open package, and then the package itself, unless it is there
/// already or open.
pub open spec fn visited(
    selected: Selected,
    installed: Seq<InstalledEntryView>,
    name: Text,
    open: Seq<StepKey>,
    steps: Seq<PlanStepView>,
) -> Seq<PlanStepView>
    decreases unopened(selected, open), 0nat, 0nat,
    via visited_decreases
{
    match table::get(selected, name) {
        None => steps,
        Some(m) => if open.contains(key_of(m)) || planned(steps, key_of(m)) {
            steps
        } else {
            let inner = open.push(key_of(m));
            visited_groups(
                selected,
                installed,
                m.depends_any,
                inner,
                visited_all(selected, installed, m.depends, inner, steps),
            ).push(step_of(m, installed))
        },
    }
}

/// The steps after what is selected for the dependencies is visited.
pub open spec fn visited_all(
    selected: Selected,
    installed: Seq<InstalledEntryView>,
    deps: Seq<DepConstraintView>,
    open: Seq<StepKey>,
    steps: Seq<PlanStepView>,
) -> Seq<PlanStepView>
    decreases unopened(selected, open), 1nat, deps.len(),
{
    if deps.len() == 0 {
        steps
    } else {
        visited(
            selected,
            installed,
            deps.last().name,
            open,
            visited_all(selected, installed, deps.drop_last(), open, steps),
        )
    }
}

/// The steps after what is selected for the constraints is visited, but for what is blocked.
pub open spec fn visited_free(
    selected: Selected,
    installed: Seq<InstalledEntryView>,
    deps: Seq<DepConstraintView>,
    open: Seq<StepKey>,
    steps: Seq<PlanStepView>,
) -> Seq<PlanStepView>
    decreases unopened(selected, open), 1nat, deps.len(),
{
    if deps.len() == 0 {
        steps
    } else {
        let front = visited_free(selected, installed, deps.drop_last(), open, steps);
        if blocked(selected, open, deps.last().name) {
            front
        } else {
            visited(selected, installed, deps.last().name, open, front)
        }
    }
}

/// The steps after what is selected for the constraints in the groups is visited, but for what is
/// blocked.
pub open spec fn visited_groups(
    selected: Selected,
    installed: Seq<InstalledEntryView>,
    groups: Seq<Seq<DepConstraintView>>,
    open: Seq<StepKey>,
    steps: Seq<PlanStepView>,
) -> Seq<PlanStepView>
    decreases unopened(selected, open), 2nat, groups.len(),
{
    if groups.len() == 0 {
        steps
    } else {
        visited_free(
            selected,
            installed,
            groups.last(),
            open,
            visited_groups(selected, installed, groups.drop_last(), open, steps),
        )
    }
}

/// The steps after the first `n` selected names are visited.
pub open spec fn visited_names(
    selected: Selected,
    installed: Seq<InstalledEntryView>,
    n: nat,
) -> Seq<PlanStepView>
    decreases n,
{
    if n == 0 {
        Seq::empty()
    } else {
        visited(
            selected,
            installed,
            selected[n - 1].0,
            Seq::empty(),
            visited_names(selected, installed, (n - 1) as nat),
        )
    }
}

/// The steps for what is selected, in order.
pub open spec fn ordered_steps(
    selected: Selected,
    installed: Seq<InstalledEntryView>,
) -> Seq<PlanStepView> {
    visited_names(selected, installed, selected.len())
}

#[via_fn]
proof fn visited_decreases(
    selected: Selected,
    installed: Seq<InstalledEntryView>,
    name: Text,
    open: Seq<StepKey>,
    steps: Seq<PlanStepView>,
) {
    if let Some(m) = table::get(selected, name) {
        if !open.contains(key_of(m)) {
            lemma_unopened(selected, open, name);
        }
    }
}

/// Opening the key of what is selected for a name leaves fewer unopened.
pub proof fn lemma_unopened(selected: Selected, open: Seq<StepKey>, name: Text)
    requires
        table::get(selected, name) matches Some(m) && !open.contains(key_of(m)),
    ensures
        unopened(selected, open.push(key_of(table::get(selected, name)->0))) < unopened(
            selected,
            open,
        ),
{
    let i = table::lemma_index(selected, name);
    let key = key_of(selected[i].1);
    let keys = selected_keys(selected);
    let more = open.push(key);
    assert(keys[i] == key);
    assert(keys.contains(key));
    assert forall|k: StepKey| #[trigger] not_among(more)(k) implies not_among(open)(k) by {
        lists::lemma_push_contains(open, key, k);
    }
    lists::lemma_push_contains(open, key, key);
    assert(keys.contains(key) && not_among(open)(key) && !not_among(more)(key));
    lists::lemma_filter_shrinks(keys, not_among(open), not_among(more));
}

/// Fails if a selected manifest conflicts with a selected name.
pub fn check_conflicts(selected: &Vec<(PackageName, &Manifest)>) -> (r: Result<
    (),
    ResolverFailure,
>)
    ensures
        match r {
            Ok(()) => first_conflict(selected.deep_view()) is None,
            Err(e) => first_conflict(selected.deep_view()) matches Some((a, b)) && e@
                == failure::conflict(a, Some(seq![b])),
        },
{
    let ghost all = selected.deep_view();
    let mut i: usize = 0;
    while i < selected.len()
        invariant
            i <= selected@.len(),
            all == selected.deep_view(),
            first_conflict(all) == conflict_from(all, i as int),
        decreases selected@.len() - i,
    {
        assert(all[i as int] == (selected@[i as int].0@, selected@[i as int].1@));
        let m: &Manifest = selected[i].1;
        match find_clash(selected, m) {
            Some(other) => {
                let names = vec![other.to_string()];
                assert(names.deep_view() =~= seq![other@]);
                return Err(ResolverFailure::conflict(selected[i].0.as_str(), Some(names)));
            },
            None => {},
        }
        i += 1;
    }
    Ok(())
}

/// The first conflict of the manifest that is selected.
fn find_clash<'a>(selected: &Vec<(PackageName, &Manifest)>, m: &'a Manifest) -> (r: Option<
    &'a PackageName,
>)
    ensures
        r.deep_view() == if clashes(selected.deep_view(), m@).len() > 0 {
            Some(clashes(selected.deep_view(), m@)[0])
        } else {
            None
        },
{
    let ghost all = m.conflicts.deep_view();
    let ghost pred = selected_name(selected.deep_view());
    let mut k: usize = 0;
    proof {
        reveal(Seq::filter);
    }
    while k < m.conflicts.len()
        invariant
            k <= m.conflicts@.len(),
            all == m.conflicts.deep_view(),
            pred == selected_name(selected.deep_view()),
            all.take(k as int).filter(pred).len() == 0,
        decreases m.conflicts@.len() - k,
    {
        assert(all[k as int] == m.conflicts@[k as int]@);
        assert(all.take(k + 1).drop_last() == all.take(k as int));
        proof {
            reveal(Seq::filter);
        }
        if table::contains_key(selected, &m.conflicts[k]) {
            proof {
                lists::lemma_filter_first(all, pred, k + 1);
            }
            return Some(&m.conflicts[k]);
        }
        k += 1;
    }
    assert(all.take(all.len() as int) == all);
    None
}

/// The keys of the packages that are being visited.
spec fn open_keys(open: Seq<(PackageName, Version)>) -> Seq<StepKey> {
    open.map_values(|d: (PackageName, Version)| (d.0@, version::keys(d.1@)))
}

fn is_visiting(open: &Vec<(PackageName, Version)>, m: &Manifest) -> (r: bool)
    ensures
        r == open_keys(open@).contains(key_of(m@)),
{
    let ghost keys = open_keys(open@);
    let mut i: usize = 0;
    while i < open.len()
        invariant
            i <= open@.len(),
            keys == open_keys(open@),
            forall|j: int| 0 <= j < i ==> keys[j] != key_of(m@),
        decreases open@.len() - i,
    {
        assert(keys[i as int] == (open@[i as int].0@, version::keys(open@[i as int].1@)));
        if open[i].0.same(&m.name) && open[i].1.ranks_with(&m.version) {
            assert(keys[i as int] == key_of(m@));
            return true;
        }
        i += 1;
    }
    false
}

fn is_planned(steps: &Vec<PlanStep>, m: &Manifest) -> (r: bool)
    ensures
        r == planned(steps.deep_view(), key_of(m@)),
{
    let ghost all = steps.deep_view();
    let mut i: usize = 0;
    while i < steps.len()
        invariant
            i <= steps@.len(),
            all == steps.deep_view(),
            forall|j: int| 0 <= j < i ==> step_key(#[trigger] all[j]) != key_of(m@),
        decreases steps@.len() - i,
    {
        assert(all[i as int] == steps@[i as int]@);
        if steps[i].name.same(&m.name) && steps[i].version.ranks_with(&m.version) {
            assert(step_key(all[i as int]) == key_of(m@));
            return true;
        }
        i += 1;
    }
    false
}

fn is_open_name(
    selected: &Vec<(PackageName, &Manifest)>,
    open: &Vec<(PackageName, Version)>,
    name: &PackageName,
) -> (r: bool)
    requires
        table::sorted(selected.deep_view()),
    ensures
        r == is_open(selected.deep_view(), open_keys(open@), name@),
{
    match table::lookup(selected, name) {
        Some(m) => is_visiting(open, *m),
        None => false,
    }
}

fn is_blocked(
    selected: &Vec<(PackageName, &Manifest)>,
    open: &Vec<(PackageName, Version)>,
    name: &PackageName,
) -> (r: bool)
    requires
        table::sorted(selected.deep_view()),
    ensures
        r == blocked(selected.deep_view(), open_keys(open@), name@),
{
    let ghost all = selected.deep_view();
    let ghost keys = open_keys(open@);
    if is_open_name(selected, open, name) {
        return true;
    }
    let names = circle::reached(selected, name);
    let ghost list = names.deep_view();
    let mut i: usize = 0;
    while i < names.len()
        invariant
            i <= names@.len(),
            all == selected.deep_view(),
            table::sorted(all),
            keys == open_keys(open@),
            list == names.deep_view(),
            forall|n: Text| #[trigger] list.contains(n) == circle::leads(all, name@, n),
            forall|j: int| 0 <= j < i ==> !is_open(all, keys, #[trigger] list[j]),
        decreases names@.len() - i,
    {
        assert(list[i as int] == names@[i as int]@);
        if is_open_name(selected, open, &names[i]) {
            assert(list.contains(list[i as int]));
            return true;
        }
        i += 1;
    }
    assert forall|n: Text| #[trigger] is_open(all, keys, n) implies n != name@ && !circle::leads(
        all,
        name@,
        n,
    ) by {
        if circle::leads(all, name@, n) {
            assert(list.contains(n));
            let j = choose|j: int| 0 <= j < list.len() && list[j] == n;
            assert(!is_open(all, keys, list[j]));
        }
    }
    false
}

fn make_step(m: &Manifest, installed: &InstalledDb) -> (r: PlanStep)
    ensures
        r@ == step_of(m@, installed@),
{
    let action = if installed.get_by_name(&m.name).is_some() {
        PlanAction::Upgrade
    } else {
        PlanAction::Install
    };
    PlanStep {
        name: m.name.clone(),
        version: m.version.clone(),
        revision: m.revision,
        source: m.source.clone(),
        files: m.files.clone(),
        action,
    }
}

fn visit(
    selected: &Vec<(PackageName, &Manifest)>,
    installed: &InstalledDb,
    name: &PackageName,
    open: &mut Vec<(PackageName, Version)>,
    steps: &mut Vec<PlanStep>,
)
    requires
        table::sorted(selected.deep_view()),
    ensures
        open_keys(final(open)@) == open_keys(old(open)@),
        final(steps).deep_view() == visited(
            selected.deep_view(),
            installed@,
            name@,
            open_keys(old(open)@),
            old(steps).deep_view(),
        ),
    decreases unopened(selected.deep_view(), open_keys(old(open)@)), 0nat, 0nat,
{
    let m: &Manifest = match table::lookup(selected, name) {
        Some(m) => *m,
        None => {
            return ;
        },
    };
    if is_visiting(open, m) || is_planned(steps, m) {
        return ;
    }
    let ghost before = open_keys(open@);
    let ghost inner = before.push(key_of(m@));
    open.push((m.name.clone(), m.version.clone()));
    proof {
        assert(open_keys(open@) =~= inner);
        lemma_unopened(selected.deep_view(), before, name@);
    }
    visit_all(selected, installed, &m.depends, open, steps);
    visit_groups(selected, installed, &m.depends_any, open, steps);
    assert(open_keys(open@) == inner);
    open.pop();
    assert(open_keys(open@) =~= inner.drop_last());
    assert(inner.drop_last() =~= before);
    let ghost last = steps.deep_view();
    let step = make_step(m, installed);
    let ghost sv = step@;
    steps.push(step);
    assert(steps.deep_view() =~= last.push(sv));
}

fn visit_all(
    selected: &Vec<(PackageName, &Manifest)>,
    installed: &InstalledDb,
    deps: &Vec<DepConstraint>,
    open: &mut Vec<(PackageName, Version)>,
    steps: &mut Vec<PlanStep>,
)
    requires
        table::sorted(selected.deep_view()),
    ensures
        open_keys(final(open)@) == open_keys(old(open)@),
        final(steps).deep_view() == visited_all(
            selected.deep_view(),
            installed@,
            deps.deep_view(),
            open_keys(old(open)@),
            old(steps).deep_view(),
        ),
    decreases unopened(selected.deep_view(), open_keys(old(open)@)), 1nat, 0nat,
{
    let ghost all = deps.deep_view();
    let ghost start = steps.deep_view();
    let ghost keys = open_keys(open@);
    let mut i: usize = 0;
    while i < deps.len()
        invariant
            i <= deps@.len(),
            all == deps.deep_view(),
            start == old(steps).deep_view(),
            keys == open_keys(old(open)@),
            table::sorted(selected.deep_view()),
            open_keys(open@) == keys,
            steps.deep_view() == visited_all(
                selected.deep_view(),
                installed@,
                all.take(i as int),
                keys,
                start,
            ),
        decreases deps@.len() - i,
    {
        assert(all[i as int] == deps@[i as int]@);
        assert(all.take(i + 1).drop_last() == all.take(i as int));
        visit(selected, installed, &deps[i].name, open, steps);
        i += 1;
    }
    assert(all.take(all.len() as int) == all);
}

fn visit_free(
    selected: &Vec<(PackageName, &Manifest)>,
    installed: &InstalledDb,
    deps: &Vec<DepConstraint>,
    open: &mut Vec<(PackageName, Version)>,
    steps: &mut Vec<PlanStep>,
)
    requires
        table::sorted(selected.deep_view()),
    ensures
        open_keys(final(open)@) == open_keys(old(open)@),
        final(steps).deep_view() == visited_free(
            selected.deep_view(),
            installed@,
            deps.deep_view(),
            open_keys(old(open)@),
            old(steps).deep_view(),
        ),
    decreases unopened(selected.deep_view(), open_keys(old(open)@)), 1nat, 0nat,
{
    let ghost all = deps.deep_view();
    let ghost start = steps.deep_view();
    let ghost keys = open_keys(open@);
    let mut i: usize = 0;
    while i < deps.len()
        invariant
            i <= deps@.len(),
            all == deps.deep_view(),
            start == old(steps).deep_view(),
            keys == open_keys(old(open)@),
            table::sorted(selected.deep_view()),
            open_keys(open@) == keys,
            steps.deep_view() == visited_free(
                selected.deep_view(),
                installed@,
                all.take(i as int),
                keys,
                start,
            ),
        decreases deps@.len() - i,
    {
        assert(all[i as int] == deps@[i as int]@);
        assert(all.take(i + 1).drop_last() == all.take(i as int));
        if !is_blocked(selected, open, &deps[i].name) {
            visit(selected, installed, &deps[i].name, open, steps);
        }
        i += 1;
    }
    assert(all.take(all.len() as int) == all);
}

fn visit_groups(
    selected: &Vec<(PackageName, &Manifest)>,
    installed: &InstalledDb,
    groups: &Vec<Vec<DepConstraint>>,
    open: &mut Vec<(PackageName, Version)>,
    steps: &mut Vec<PlanStep>,
)
    requires
        table::sorted(selected.deep_view()),
    ensures
        open_keys(final(open)@) == open_keys(old(open)@),
        final(steps).deep_view() == visited_groups(
            selected.deep_view(),
            installed@,
            groups.deep_view(),
            open_keys(old(open)@),
            old(steps).deep_view(),
        ),
    decreases unopened(selected.deep_view(), open_keys(old(open)@)), 2nat, 0nat,
{
    let ghost all = groups.deep_view();
    let ghost start = steps.deep_view();
    let ghost keys = open_keys(open@);
    let mut i: usize = 0;
    while i < groups.len()
        invariant
            i <= groups@.len(),
            all == groups.deep_view(),
            start == old(steps).deep_view(),
            keys == open_keys(old(open)@),
            table::sorted(selected.deep_view()),
            open_keys(open@) == keys,
            steps.deep_view() == visited_groups(
                selected.deep_view(),
                installed@,
                all.take(i as int),
                keys,
                start,
            ),
        decreases groups@.len() - i,
    {
        assert(all[i as int] == groups@[i as int].deep_view());
        assert(all.take(i + 1).drop_last() == all.take(i as int));
        visit_free(selected, installed, &groups[i], open, steps);
        i += 1;
    }
    assert(all.take(all.len() as int) == all);
}

/// The steps for what is selected, in topological order (dependencies first).
pub fn topological_plan(
    selected: &Vec<(PackageName, &Manifest)>,
    installed: &InstalledDb,
) -> (r: Vec<PlanStep>)
    requires
        table::sorted(selected.deep_view()),
    ensures
        r.deep_view() == ordered_steps(selected.deep_view(), installed@),
{
    let ghost all = selected.deep_view();
    let mut open: Vec<(PackageName, Version)> = Vec::new();
    let mut steps: Vec<PlanStep> = Vec::new();
    let mut i: usize = 0;
    assert(steps.deep_view() =~= Seq::empty());
    assert(open_keys(open@) =~= Seq::empty());
    while i < selected.len()
        invariant
            i <= selected@.len(),
            all == selected.deep_view(),
            table::sorted(all),
            open_keys(open@) == Seq::<StepKey>::empty(),
            steps.deep_view() == visited_names(all, installed@, i as nat),
        decreases selected@.len() - i,
    {
        assert(all[i as int].0 == selected@[i as int].0@);
        visit(selected, installed, &selected[i].0, &mut open, &mut steps);
        i += 1;
    }
    steps
}

} // verus!
