//! Settling a selection: what is selected after all is not left to the system.

use vstd::prelude::*;
use vstd::string::*;

use crate::dep_constraint;
use crate::dep_constraint::{DepConstraint, DepConstraintView};
use crate::failure;
use crate::failure::{ResolverFailure, ResolverFailureView};
use crate::lists;
use crate::manifest::{Manifest, ManifestView};
use crate::package_name::PackageName;
use crate::resolver::order::Selected;
use crate::resolver::search;
use crate::resolver::search::{Selection, State};
use crate::table;
use crate::text::Text;
use crate::version::Version;

verus! {

/// Whether a selected manifest is of the package of that name, whatever it was selected for.
pub open spec fn of_package(name: Text) -> spec_fn((Text, ManifestView)) -> bool {
    |e: (Text, ManifestView)| e.1.name == name
}

/// The first selected manifest of the package of that name.
pub open spec fn package_manifest(selected: Selected, name: Text) -> Option<ManifestView> {
    let found = selected.filter(of_package(name));
    if found.len() > 0 {
        Some(found[0].1)
    } else {
        None
    }
}

/// What is selected, with the packages that were selected as providers of another name selected for
/// their own names too, where those were left to the system.
pub open spec fn adopted(selected: Selected, satisfied: Seq<(Text, Text)>) -> Selected
    decreases satisfied.len(),
{
    if satisfied.len() == 0 {
        selected
    } else {
        let front = adopted(selected, satisfied.drop_last());
        let name = satisfied.last().0;
        match package_manifest(selected, name) {
            Some(m) if !table::has(front, name) => table::put(front, name, m),
            _ => front,
        }
    }
}

/// Whether a name is not selected.
pub open spec fn left_over(selected: Selected) -> spec_fn((Text, Text)) -> bool {
    |e: (Text, Text)| !table::has(selected, e.0)
}

/// The state of which a plan is made: what is selected is no longer left to the system.
pub open spec fn settle(s: State) -> State {
    let selected = adopted(s.selected, s.satisfied);
    State { selected, satisfied: s.satisfied.filter(left_over(selected)) }
}

/// Whether the state meets the constraint: by what is selected for the name, or by the system.
pub open spec fn met(s: State, c: DepConstraintView) -> bool {
    ||| table::get(s.selected, c.name) matches Some(m) && dep_constraint::satisfied(c, m.version)
    ||| table::get(s.satisfied, c.name) matches Some(v) && dep_constraint::satisfied(c, v)
}

/// Whether the state meets all the constraints.
pub open spec fn all_met(s: State, deps: Seq<DepConstraintView>) -> bool {
    forall|i: int| 0 <= i < deps.len() ==> met(s, #[trigger] deps[i])
}

/// Whether the state meets all constraints of one of the alternatives.
pub open spec fn any_met(s: State, groups: Seq<Seq<DepConstraintView>>) -> bool {
    exists|i: int| 0 <= i < groups.len() && all_met(s, #[trigger] groups[i])
}

/// Whether the state meets all dependencies of the manifest, and one of its alternatives if it
/// has any.
pub open spec fn dependencies_met(s: State, m: ManifestView) -> bool {
    all_met(s, m.depends) && (m.depends_any.len() == 0 || any_met(s, m.depends_any))
}

/// Whether the state does not meet the constraint.
pub open spec fn unmet(s: State) -> spec_fn(DepConstraintView) -> bool {
    |c: DepConstraintView| !met(s, c)
}

/// The failure of a constraint that the state does not meet, with the version that is selected.
pub open spec fn unmet_failure(s: State, c: DepConstraintView) -> ResolverFailureView {
    failure::unsatisfiable(
        c.name,
        Some(dep_constraint::constraint_text(c)),
        match table::get(s.selected, c.name) {
            Some(m) => Some(seq![m.version]),
            None => None,
        },
        None,
    )
}

/// The failure of a manifest whose dependencies the state does not meet.
pub open spec fn shortfall(s: State, m: ManifestView) -> Option<ResolverFailureView> {
    let missing = m.depends.filter(unmet(s));
    if missing.len() > 0 {
        Some(unmet_failure(s, missing[0]))
    } else if m.depends_any.len() > 0 && !any_met(s, m.depends_any) {
        Some(search::no_alternative(m))
    } else {
        None
    }
}

/// The failure of the first selected manifest, not before position `i`, whose dependencies the
/// state does not meet.
pub open spec fn shortfall_from(s: State, i: int) -> Option<ResolverFailureView>
    decreases s.selected.len() - i,
{
    if i >= s.selected.len() {
        None
    } else {
        match shortfall(s, s.selected[i].1) {
            Some(e) => Some(e),
            None => shortfall_from(s, i + 1),
        }
    }
}

/// The failure of the first selected manifest whose dependencies the state does not meet.
pub open spec fn first_shortfall(s: State) -> Option<ResolverFailureView> {
    shortfall_from(s, 0)
}

/// The first selected manifest of the package of that name.
fn find_package<'a>(selected: &Vec<(PackageName, &'a Manifest)>, name: &PackageName) -> (r: Option<
    &'a Manifest,
>)
    ensures
        r.deep_view() == package_manifest(selected.deep_view(), name@),
{
    let ghost all = selected.deep_view();
    let ghost pred = of_package(name@);
    let mut i: usize = 0;
    proof {
        reveal(Seq::filter);
    }
    while i < selected.len()
        invariant
            i <= selected@.len(),
            all == selected.deep_view(),
            pred == of_package(name@),
            all.take(i as int).filter(pred).len() == 0,
        decreases selected@.len() - i,
    {
        assert(all[i as int] == (selected@[i as int].0@, selected@[i as int].1@));
        assert(all.take(i + 1).drop_last() == all.take(i as int));
        proof {
            reveal(Seq::filter);
        }
        let m: &'a Manifest = selected[i].1;
        if m.name.same(name) {
            proof {
                lists::lemma_filter_first(all, pred, i + 1);
            }
            return Some(m);
        }
        i += 1;
    }
    assert(all.take(all.len() as int) == all);
    None
}

/// Settles a selection: a package that was selected as a provider of another name is selected for
/// its own name too, if that was left to the system, and what is selected is no longer left to the
/// system.
pub fn settled<'a>(state: Selection<'a>) -> (r: Selection<'a>)
    requires
        search::ordered(state@),
    ensures
        r@ == settle(state@),
        search::ordered(r@),
{
    let ghost s = state@;
    let mut selected: Vec<(PackageName, &'a Manifest)> = state.copied().selected;
    let mut i: usize = 0;
    assert(s.satisfied.take(0) =~= Seq::empty());
    while i < state.satisfied.len()
        invariant
            i <= state.satisfied@.len(),
            s == state@,
            table::sorted(selected.deep_view()),
            selected.deep_view() == adopted(s.selected, s.satisfied.take(i as int)),
        decreases state.satisfied@.len() - i,
    {
        let name = &state.satisfied[i].0;
        assert(s.satisfied[i as int].0 == name@);
        assert(s.satisfied.take(i + 1).drop_last() == s.satisfied.take(i as int));
        if !table::contains_key(&selected, name) {
            if let Some(m) = find_package(&state.selected, name) {
                table::set(&mut selected, name.clone(), m);
            }
        }
        i += 1;
    }
    assert(s.satisfied.take(s.satisfied.len() as int) == s.satisfied);
    let ghost all = s.satisfied;
    let ghost pred = left_over(selected.deep_view());
    let mut satisfied: Vec<(PackageName, Version)> = Vec::new();
    let mut k: usize = 0;
    proof {
        reveal(Seq::filter);
        table::lemma_kept(all, pred);
    }
    assert(satisfied.deep_view() =~= all.take(0).filter(pred));
    while k < state.satisfied.len()
        invariant
            k <= state.satisfied@.len(),
            all == state.satisfied.deep_view(),
            pred == left_over(selected.deep_view()),
            satisfied.deep_view() == all.take(k as int).filter(pred),
        decreases state.satisfied@.len() - k,
    {
        let ghost before = satisfied.deep_view();
        assert(all[k as int] == (state.satisfied@[k as int].0@, state.satisfied@[k as int].1@));
        assert(all.take(k + 1).drop_last() == all.take(k as int));
        proof {
            reveal(Seq::filter);
        }
        if !table::contains_key(&selected, &state.satisfied[k].0) {
            satisfied.push((state.satisfied[k].0.clone(), state.satisfied[k].1.clone()));
            assert(satisfied.deep_view() =~= before.push(all[k as int]));
        }
        k += 1;
    }
    assert(all.take(all.len() as int) == all);
    Selection { selected, satisfied }
}

/// Whether the state meets the constraint.
fn is_met<'a>(state: &Selection<'a>, c: &DepConstraint) -> (r: bool)
    requires
        search::ordered(state@),
    ensures
        r == met(state@, c@),
{
    if let Some(m) = table::lookup(&state.selected, &c.name) {
        if c.satisfies(&m.version) {
            return true;
        }
    }
    match table::lookup(&state.satisfied, &c.name) {
        Some(v) => c.satisfies(v),
        None => false,
    }
}

/// The first constraint that the state does not meet.
fn find_unmet<'a, 'b>(state: &Selection<'a>, deps: &'b Vec<DepConstraint>) -> (r: Option<
    &'b DepConstraint,
>)
    requires
        search::ordered(state@),
    ensures
        match r {
            Some(c) => deps.deep_view().filter(unmet(state@)).len() > 0
                && deps.deep_view().filter(unmet(state@))[0] == c@ && !all_met(
                state@,
                deps.deep_view(),
            ),
            None => deps.deep_view().filter(unmet(state@)).len() == 0 && all_met(
                state@,
                deps.deep_view(),
            ),
        },
{
    let ghost all = deps.deep_view();
    let ghost pred = unmet(state@);
    let mut i: usize = 0;
    proof {
        reveal(Seq::filter);
    }
    while i < deps.len()
        invariant
            i <= deps@.len(),
            all == deps.deep_view(),
            pred == unmet(state@),
            search::ordered(state@),
            all.take(i as int).filter(pred).len() == 0,
            forall|j: int| 0 <= j < i ==> met(state@, #[trigger] all[j]),
        decreases deps@.len() - i,
    {
        assert(all[i as int] == deps@[i as int]@);
        assert(all.take(i + 1).drop_last() == all.take(i as int));
        proof {
            reveal(Seq::filter);
        }
        if !is_met(state, &deps[i]) {
            proof {
                lists::lemma_filter_first(all, pred, i + 1);
                assert(!met(state@, all[i as int]));
            }
            return Some(&deps[i]);
        }
        i += 1;
    }
    assert(all.take(all.len() as int) == all);
    None
}

/// Whether the state meets one of the alternatives.
fn is_any_met<'a>(state: &Selection<'a>, groups: &Vec<Vec<DepConstraint>>) -> (r: bool)
    requires
        search::ordered(state@),
    ensures
        r == any_met(state@, groups.deep_view()),
{
    let ghost all = groups.deep_view();
    let mut i: usize = 0;
    while i < groups.len()
        invariant
            i <= groups@.len(),
            all == groups.deep_view(),
            search::ordered(state@),
            forall|j: int| 0 <= j < i ==> !all_met(state@, #[trigger] all[j]),
        decreases groups@.len() - i,
    {
        assert(all[i as int] == groups@[i as int].deep_view());
        if find_unmet(state, &groups[i]).is_none() {
            assert(all_met(state@, all[i as int]));
            return true;
        }
        i += 1;
    }
    false
}

/// Fails if the dependencies of a selected manifest are not met: a dependency that was left to the
/// system can be overruled by a version that is selected later.
pub fn check_dependencies<'a>(state: &Selection<'a>) -> (r: Result<(), ResolverFailure>)
    requires
        search::ordered(state@),
    ensures
        match r {
            Ok(()) => first_shortfall(state@) is None,
            Err(e) => first_shortfall(state@) == Some(e@),
        },
{
    let ghost s = state@;
    let mut i: usize = 0;
    while i < state.selected.len()
        invariant
            i <= state.selected@.len(),
            s == state@,
            search::ordered(s),
            first_shortfall(s) == shortfall_from(s, i as int),
        decreases state.selected@.len() - i,
    {
        let m: &Manifest = state.selected[i].1;
        assert(s.selected[i as int].1 == m@);
        if let Some(c) = find_unmet(state, &m.depends) {
            let versions = match table::lookup(&state.selected, &c.name) {
                Some(chosen) => {
                    let versions = vec![chosen.version.clone()];
                    assert(versions.deep_view() =~= seq![chosen@.version]);
                    Some(versions)
                },
                None => None,
            };
            return Err(
                ResolverFailure::unsatisfiable(
                    c.name.as_str(),
                    Some(c.to_string().as_str()),
                    versions,
                    None,
                ),
            );
        }
        if m.depends_any.len() > 0 && !is_any_met(state, &m.depends_any) {
            return Err(search::unsatisfied_alternatives(m));
        }
        i += 1;
    }
    Ok(())
}

/// Where no shortfall is found, the dependencies of everything selected are met.
pub proof fn lemma_no_shortfall(s: State, i: int)
    requires
        0 <= i <= s.selected.len(),
        shortfall_from(s, i) is None,
    ensures
        forall|j: int|
            i <= j < s.selected.len() ==> dependencies_met(s, (#[trigger] s.selected[j]).1),
    decreases s.selected.len() - i,
{
    if i < s.selected.len() {
        let m = s.selected[i].1;
        lemma_no_shortfall(s, i + 1);
        lists::lemma_filter(m.depends, unmet(s));
        assert forall|k: int| 0 <= k < m.depends.len() implies met(s, #[trigger] m.depends[k]) by {
            assert(m.depends.contains(m.depends[k]));
            if unmet(s)(m.depends[k]) {
                assert(m.depends.filter(unmet(s)).contains(m.depends[k]));
            }
        }
        assert(dependencies_met(s, m));
    }
}

/// What adopting keeps, and what it adds: every added name is that of a selected manifest.
pub proof fn lemma_adopted(selected: Selected, satisfied: Seq<(Text, Text)>)
    requires
        table::sorted(selected),
    ensures
        table::sorted(adopted(selected, satisfied)),
        forall|n: Text| #[trigger]
            table::has(selected, n) ==> table::get(adopted(selected, satisfied), n) == table::get(
                selected,
                n,
            ),
        forall|n: Text|
            (#[trigger] table::get(adopted(selected, satisfied), n)) matches Some(m)
                ==> table::get(selected, n) == Some(m) || (m.name == n && exists|k: Text| #[trigger]
                table::get(selected, k) == Some(m)),
        forall|i: int|
            0 <= i < satisfied.len() && package_manifest(
                selected,
                (#[trigger] satisfied[i]).0,
            ) is Some ==> table::has(adopted(selected, satisfied), satisfied[i].0),
    decreases satisfied.len(),
{
    if satisfied.len() > 0 {
        let d = satisfied.drop_last();
        lemma_adopted(selected, d);
        let front = adopted(selected, d);
        let all = adopted(selected, satisfied);
        let name = satisfied.last().0;
        assert forall|i: int|
            0 <= i < satisfied.len() && package_manifest(
                selected,
                (#[trigger] satisfied[i]).0,
            ) is Some implies table::has(all, satisfied[i].0) by {
            if i < d.len() {
                assert(d[i] == satisfied[i]);
                assert(table::has(front, satisfied[i].0));
            }
            if let Some(m) = package_manifest(selected, name) {
                if !table::has(front, name) {
                    table::lemma_put(front, name, m);
                }
            }
        }
        if let Some(m) = package_manifest(selected, name) {
            if !table::has(front, name) {
                table::lemma_put(front, name, m);
                let found = selected.filter(of_package(name));
                lists::lemma_filter(selected, of_package(name));
                assert(found.contains(found[0]));
                let j = choose|j: int| 0 <= j < selected.len() && selected[j] == found[0];
                table::lemma_get(selected, j);
                assert(table::get(selected, selected[j].0) == Some(m));
                assert forall|n: Text| #[trigger] table::has(selected, n) implies table::get(
                    all,
                    n,
                ) == table::get(selected, n) by {
                    assert(table::get(front, n) is Some);
                    assert(table::has(front, n));
                }
                assert forall|n: Text| (#[trigger] table::get(all, n)) is Some implies table::get(
                    selected,
                    n,
                ) == table::get(all, n) || (table::get(all, n)->0.name == n && exists|k: Text|
                    #[trigger]
                    table::get(selected, k) == table::get(all, n)) by {
                    if n != name {
                        assert(table::get(front, n) == table::get(all, n));
                    }
                }
            }
        }
    }
}

/// What is selected and what is left to the system are apart, also by the names of the packages that
/// are selected for other names.
pub proof fn lemma_settled_apart(s: State)
    requires
        search::ordered(s),
    ensures
        search::ordered(settle(s)),
        forall|n: Text|
            (#[trigger] table::get(settle(s).satisfied, n)) is Some ==> !table::has(
                settle(s).selected,
                n,
            ) && table::get(settle(s).satisfied, n) == table::get(s.satisfied, n),
        forall|n: Text, k: Text|
            #![trigger table::get(settle(s).satisfied, n), table::get(settle(s).selected, k)]
            table::get(settle(s).satisfied, n) is Some && table::get(settle(s).selected, k) is Some
                ==> table::get(settle(s).selected, k)->0.name != n,
{
    let t = settle(s);
    lemma_adopted(s.selected, s.satisfied);
    table::lemma_kept(s.satisfied, left_over(t.selected));
    assert forall|n: Text| (#[trigger] table::get(t.satisfied, n)) is Some implies !table::has(
        t.selected,
        n,
    ) && table::get(t.satisfied, n) == table::get(s.satisfied, n) by {
        assert(left_over(t.selected)((n, table::get(s.satisfied, n)->0)));
    }
    assert forall|n: Text, k: Text|
        #![trigger table::get(t.satisfied, n), table::get(t.selected, k)]
        table::get(t.satisfied, n) is Some && table::get(t.selected, k) is Some implies table::get(
        t.selected,
        k,
    )->0.name != n by {
        let m = table::get(t.selected, k)->0;
        if m.name == n {
            let o = if table::get(s.selected, k) == Some(m) {
                k
            } else {
                choose|o: Text| #[trigger] table::get(s.selected, o) == Some(m)
            };
            assert(table::get(s.selected, o) == Some(m));
            let j = table::lemma_index(s.selected, o);
            lists::lemma_filter(s.selected, of_package(n));
            assert(s.selected.contains(s.selected[j]));
            assert(s.selected.filter(of_package(n)).contains(s.selected[j]));
            assert(package_manifest(s.selected, n) is Some);
            let i = table::lemma_index(s.satisfied, n);
            assert(table::has(t.selected, s.satisfied[i].0));
        }
    }
}

} // verus!
