//! The lockfile of a plan reproduces the plan.

use vstd::prelude::*;

use crate::dep_constraint;
use crate::dep_constraint::DepConstraintView;
use crate::failure::ResolverFailureView;
use crate::lists;
use crate::manifest::ManifestView;
use crate::resolver::available;
use crate::resolver::choice;
use crate::resolver::choice::Setting;
use crate::resolver::laws;
use crate::resolver::order;
use crate::resolver::order_laws;
use crate::resolver::plan;
use crate::resolver::plan::{LockfileMode, PlanView};
use crate::resolver::request;
use crate::resolver::search;
use crate::resolver::search::State;
use crate::resolver::settle;
use crate::storage::installed;
use crate::storage::lockfile;
use crate::storage::lockfile::LockfilePackageView;
use crate::table;
use crate::text::Text;

verus! {

/// The setting under the lockfile, in strict mode.
pub open spec fn locked_to(setting: Setting, packages: Seq<LockfilePackageView>) -> Setting {
    Setting { lockfile: Some((packages, LockfileMode::Strict)), ..setting }
}

/// Whether everything selected is locked.
spec fn all_locked(packages: Seq<LockfilePackageView>, s: State) -> bool {
    forall|n: Text|
        (#[trigger] table::get(s.selected, n)) matches Some(m) ==> choice::is_locked(packages, m)
}

/// What is chosen without a lockfile is chosen under a strict one that locks it.
pub proof fn lemma_chosen_again(
    setting: Setting,
    packages: Seq<LockfilePackageView>,
    name: Text,
    constraint: Option<DepConstraintView>,
    m: ManifestView,
)
    requires
        available::well_indexed(setting.available),
        setting.lockfile is None,
        choice::chosen(setting, name, constraint) == Ok::<_, ResolverFailureView>(m),
        choice::is_locked(packages, m),
    ensures
        choice::chosen(locked_to(setting, packages), name, constraint) == Ok::<
            _,
            ResolverFailureView,
        >(m),
{
    let t = setting.available;
    let strict = locked_to(setting, packages);
    laws::lemma_chosen(setting, name, constraint, m);
    match table::get(t, name) {
        Some(versions) => {
            let fitting = choice::candidates(versions, constraint);
            let k = table::lemma_index(t, name);
            let locked = lockfile::locked_for(packages, name);
            let pred = choice::release_in(locked);
            let list = choice::locked_releases(fitting, locked);
            lists::lemma_filter(versions, choice::meeting(constraint));
            laws::lemma_preferred(setting, name, fitting);
            let j = choose|j: int| 0 <= j < versions.len() && versions[j] == m;
            assert(t[k].1[j].name == t[k].0);
            let q = choose|q: int| 0 <= q < packages.len() && choice::locks(
                #[trigger] packages[q],
                m,
            );
            lists::lemma_filter(packages, lockfile::named(name));
            assert(packages.contains(packages[q]));
            assert(locked.contains(packages[q]));
            let i = choose|i: int| 0 <= i < locked.len() && locked[i] == packages[q];
            assert(crate::version::version_eq(locked[i].version, m.version));
            assert(choice::release_locked(locked, m));
            assert(pred(m));
            lists::lemma_filter(fitting, pred);
            assert(list.contains(m));
            if let Some(e) = installed::entry_of(setting.installed, name) {
                let same = choice::released_as(e);
                lists::lemma_filter(fitting, same);
                lists::lemma_filter(list, same);
                if fitting.filter(same).len() > 0 && !setting.prefer_upgrade {
                    lists::lemma_filter_head(fitting, pred, same);
                } else if list.filter(same).len() > 0 {
                    assert(list.filter(same).contains(list.filter(same)[0]));
                    assert(fitting.filter(same).contains(list.filter(same)[0]));
                }
            }
            if m == fitting.last() {
                reveal(Seq::filter);
                assert(list.last() == m);
            }
        },
        None => {
            let all = available::providers(t, name);
            let pred = choice::meeting(constraint);
            let free = choice::allowed_by(setting.lockfile);
            let bound = choice::allowed_by(strict.lockfile);
            lists::lemma_filter_all(all, free);
            assert(bound(m));
            lists::lemma_filter_last(all, bound, pred);
            lists::lemma_filter(all.filter(bound), pred);
            assert(all.filter(bound).filter(pred).contains(m));
            assert(all.filter(bound).contains(m));
        },
    }
}

/// Whether the constraint is within reach: the system meets it, or an available manifest that is
/// locked.
pub open spec fn in_reach(
    setting: Setting,
    packages: Seq<LockfilePackageView>,
    c: DepConstraintView,
) -> bool {
    ||| search::system_version(setting, c.name, Some(c)) is Some
    ||| exists|m: ManifestView| #[trigger]
        laws::in_index(setting.available, m) && choice::is_locked(packages, m) && laws::stands_for(
            setting.available,
            m,
            c.name,
        ) && dep_constraint::satisfied(c, m.version)
}

/// Whether all the constraints are within reach.
pub open spec fn all_in_reach(
    setting: Setting,
    packages: Seq<LockfilePackageView>,
    group: Seq<DepConstraintView>,
) -> bool {
    forall|k: int| 0 <= k < group.len() ==> in_reach(setting, packages, #[trigger] group[k])
}

/// Whether at most one of the alternatives is within reach.
pub open spec fn one_in_reach(
    setting: Setting,
    packages: Seq<LockfilePackageView>,
    groups: Seq<Seq<DepConstraintView>>,
) -> bool {
    forall|i: int, j: int|
        #![trigger groups[i], groups[j]]
        0 <= i < j < groups.len() ==> !all_in_reach(setting, packages, groups[i]) || !all_in_reach(
            setting,
            packages,
            groups[j],
        )
}

/// Whether of each selected manifest at most one alternative is within reach.
pub open spec fn choices_forced(
    setting: Setting,
    packages: Seq<LockfilePackageView>,
    selected: order::Selected,
) -> bool {
    forall|n: Text|
        (#[trigger] table::get(selected, n)) matches Some(m) ==> one_in_reach(
            setting,
            packages,
            m.depends_any,
        )
}

/// Whether a search under the lockfile goes as one that ends in `f`.
spec fn pinned(setting: Setting, packages: Seq<LockfilePackageView>, f: State) -> bool {
    &&& available::well_indexed(setting.available)
    &&& setting.lockfile is None
    &&& all_locked(packages, f)
    &&& choices_forced(setting, packages, f.selected)
}

/// What was chosen for what is locked would be chosen under the lockfile too.
proof fn lemma_sound_again(
    setting: Setting,
    roots: Seq<Text>,
    packages: Seq<LockfilePackageView>,
    path: Seq<Text>,
    s: State,
    f: State,
)
    requires
        pinned(setting, packages, f),
        search::extends(s, f),
        laws::sound(setting, roots, path, s),
    ensures
        laws::sound(locked_to(setting, packages), roots, path, s),
{
    let strict = locked_to(setting, packages);
    assert forall|n: Text| #[trigger] table::has(s.selected, n) implies laws::justified(
        strict,
        roots,
        n,
        table::get(s.selected, n)->0,
    ) by {
        let m = table::get(s.selected, n)->0;
        let c = choose|c: Option<DepConstraintView>|
            #![trigger choice::chosen(setting, n, c)]
            {
                &&& choice::chosen(setting, n, c) == Ok::<_, ResolverFailureView>(m)
                &&& roots.contains(n) || (c matches Some(d) && d.name == n && laws::demanded(
                    setting.available,
                    d,
                ) && search::system_version(setting, n, c) is None)
            };
        assert(table::get(f.selected, n) == Some(m));
        lemma_chosen_again(setting, packages, n, c, m);
        assert(search::system_version(strict, n, c) == search::system_version(setting, n, c));
        assert(choice::chosen(strict, n, c) == Ok::<_, ResolverFailureView>(m));
    }
}

/// A constraint that a state under the lockfile meets is within reach.
proof fn lemma_met_in_reach(
    setting: Setting,
    roots: Seq<Text>,
    packages: Seq<LockfilePackageView>,
    path: Seq<Text>,
    t: State,
    c: DepConstraintView,
)
    requires
        available::well_indexed(setting.available),
        laws::sound(locked_to(setting, packages), roots, path, t),
        settle::met(t, c),
    ensures
        in_reach(setting, packages, c),
{
    let strict = locked_to(setting, packages);
    if table::get(t.selected, c.name) matches Some(m) && dep_constraint::satisfied(c, m.version) {
        let m = table::get(t.selected, c.name)->0;
        assert(table::has(t.selected, c.name));
        assert(laws::justified(strict, roots, c.name, m));
        let d = choose|d: Option<DepConstraintView>|
            #![trigger choice::chosen(strict, c.name, d)]
            {
                &&& choice::chosen(strict, c.name, d) == Ok::<_, ResolverFailureView>(m)
                &&& roots.contains(c.name) || (d matches Some(e) && e.name == c.name
                    && laws::demanded(strict.available, e) && search::system_version(
                    strict,
                    c.name,
                    d,
                ) is None)
            };
        laws::lemma_chosen(strict, c.name, d, m);
        assert(laws::in_index(setting.available, m));
    } else {
        assert(table::has(t.satisfied, c.name));
    }
}

/// Whether all constraints of the groups are those of available manifests.
spec fn all_demanded(setting: Setting, groups: Seq<Seq<DepConstraintView>>) -> bool {
    forall|i: int, j: int|
        0 <= i < groups.len() && 0 <= j < groups[i].len() ==> laws::demanded(
            setting.available,
            #[trigger] groups[i][j],
        )
}

/// An alternative that is resolved under the lockfile is within reach.
proof fn lemma_strict_in_reach(
    setting: Setting,
    roots: Seq<Text>,
    packages: Seq<LockfilePackageView>,
    group: Seq<DepConstraintView>,
    path: Seq<Text>,
    s: State,
)
    requires
        available::well_indexed(setting.available),
        laws::sound(locked_to(setting, packages), roots, path, s),
        forall|i: int|
            0 <= i < group.len() ==> laws::demanded(setting.available, #[trigger] group[i]),
        search::resolved_group(locked_to(setting, packages), group, path, s) is Some,
    ensures
        all_in_reach(setting, packages, group),
{
    let strict = locked_to(setting, packages);
    laws::lemma_resolved_group(strict, roots, group, path, s);
    let t = search::resolved_group(strict, group, path, s)->0;
    assert forall|k: int| 0 <= k < group.len() implies in_reach(
        setting,
        packages,
        #[trigger] group[k],
    ) by {
        assert(settle::met(t, group[k]));
        lemma_met_in_reach(setting, roots, packages, path, t, group[k]);
    }
}

/// Alternatives that are out of reach cannot be resolved under the lockfile.
proof fn lemma_none_in_reach(
    setting: Setting,
    roots: Seq<Text>,
    packages: Seq<LockfilePackageView>,
    groups: Seq<Seq<DepConstraintView>>,
    path: Seq<Text>,
    s: State,
)
    requires
        available::well_indexed(setting.available),
        laws::sound(locked_to(setting, packages), roots, path, s),
        all_demanded(setting, groups),
        forall|i: int|
            0 <= i < groups.len() ==> !all_in_reach(setting, packages, #[trigger] groups[i]),
    ensures
        search::resolved_any(locked_to(setting, packages), groups, path, s) is None,
    decreases groups.len(),
{
    if groups.len() > 0 {
        let front = groups.drop_last();
        let last = groups.last();
        let n = groups.len() - 1;
        assert forall|i: int| 0 <= i < front.len() implies !all_in_reach(
            setting,
            packages,
            #[trigger] front[i],
        ) by {
            assert(front[i] == groups[i]);
        }
        assert(all_demanded(setting, front)) by {
            assert forall|i: int, j: int|
                0 <= i < front.len() && 0 <= j < front[i].len() implies laws::demanded(
                setting.available,
                #[trigger] front[i][j],
            ) by {
                assert(front[i][j] == groups[i][j]);
            }
        }
        lemma_none_in_reach(setting, roots, packages, front, path, s);
        assert(last == groups[n]);
        if search::resolved_group(locked_to(setting, packages), last, path, s) is Some {
            assert forall|j: int| 0 <= j < last.len() implies laws::demanded(
                setting.available,
                #[trigger] last[j],
            ) by {
                assert(groups[n][j] == last[j]);
            }
            lemma_strict_in_reach(setting, roots, packages, last, path, s);
        }
    }
}

/// Resolving a name goes the same way under the lockfile.
proof fn lemma_resolved_again(
    setting: Setting,
    roots: Seq<Text>,
    packages: Seq<LockfilePackageView>,
    name: Text,
    constraint: Option<DepConstraintView>,
    explicit: bool,
    path: Seq<Text>,
    s: State,
    f: State,
)
    requires
        pinned(setting, packages, f),
        laws::sound(setting, roots, path, s),
        constraint matches Some(c) ==> c.name == name && laws::demanded(setting.available, c),
        explicit ==> roots.contains(name),
        constraint is None ==> explicit,
        search::resolved(setting, name, constraint, explicit, path, s) matches Ok(t)
            && search::extends(t, f),
    ensures
        search::resolved(locked_to(setting, packages), name, constraint, explicit, path, s)
            == search::resolved(setting, name, constraint, explicit, path, s),
    decreases search::room(setting.available, path), 0nat, 0nat,
{
    let strict = locked_to(setting, packages);
    let t = search::resolved(setting, name, constraint, explicit, path, s)->Ok_0;
    assert(search::system_version(strict, name, constraint) == search::system_version(
        setting,
        name,
        constraint,
    ));
    if table::has(s.selected, name) {
    } else if !explicit && search::system_version(setting, name, constraint) is Some {
    } else {
        let m = choice::chosen(setting, name, constraint)->Ok_0;
        let inner = path.push(name);
        let u = search::with_selected(s, name, m);
        let v = search::resolved_all(setting, m.depends, inner, u)->Ok_0;
        search::lemma_chosen_known(setting, name, constraint);
        search::lemma_room(setting.available, path, name);
        laws::lemma_chosen(setting, name, constraint, m);
        table::lemma_put(s.selected, name, m);
        laws::lemma_begin_sound(setting, roots, path, name, constraint, m, s);
        laws::lemma_demands(setting, name, constraint, m);
        laws::lemma_resolved_all(setting, roots, m.depends, inner, u);
        if m.depends_any.len() > 0 {
            laws::lemma_resolved_any(setting, roots, m.depends_any, inner, v);
            search::lemma_extends_transitive(v, t, f);
        }
        search::lemma_extends_transitive(u, v, f);
        assert(table::has(u.selected, name));
        assert(table::get(f.selected, name) == Some(m));
        lemma_chosen_again(setting, packages, name, constraint, m);
        lemma_all_again(setting, roots, packages, m.depends, inner, u, f);
        if m.depends_any.len() > 0 {
            lemma_any_again(setting, roots, packages, m.depends_any, inner, v, f);
        }
    }
}

proof fn lemma_all_again(
    setting: Setting,
    roots: Seq<Text>,
    packages: Seq<LockfilePackageView>,
    deps: Seq<DepConstraintView>,
    path: Seq<Text>,
    s: State,
    f: State,
)
    requires
        pinned(setting, packages, f),
        laws::sound(setting, roots, path, s),
        forall|i: int|
            0 <= i < deps.len() ==> laws::demanded(setting.available, #[trigger] deps[i]),
        search::resolved_all(setting, deps, path, s) matches Ok(t) && search::extends(t, f),
    ensures
        search::resolved_all(locked_to(setting, packages), deps, path, s) == search::resolved_all(
            setting,
            deps,
            path,
            s,
        ),
    decreases search::room(setting.available, path), 1nat, deps.len(),
{
    if deps.len() > 0 {
        let front = deps.drop_last();
        let last = deps.last();
        let u = search::resolved_all(setting, front, path, s)->Ok_0;
        let t = search::resolved_all(setting, deps, path, s)->Ok_0;
        assert forall|i: int| 0 <= i < front.len() implies laws::demanded(
            setting.available,
            #[trigger] front[i],
        ) by {
            assert(front[i] == deps[i]);
        }
        assert(last == deps[deps.len() - 1]);
        laws::lemma_resolved_all(setting, roots, front, path, s);
        laws::lemma_resolved(setting, roots, last.name, Some(last), false, path, u);
        search::lemma_extends_transitive(u, t, f);
        lemma_all_again(setting, roots, packages, front, path, s, f);
        lemma_resolved_again(setting, roots, packages, last.name, Some(last), false, path, u, f);
    }
}

proof fn lemma_group_again(
    setting: Setting,
    roots: Seq<Text>,
    packages: Seq<LockfilePackageView>,
    group: Seq<DepConstraintView>,
    path: Seq<Text>,
    s: State,
    f: State,
)
    requires
        pinned(setting, packages, f),
        laws::sound(setting, roots, path, s),
        forall|i: int|
            0 <= i < group.len() ==> laws::demanded(setting.available, #[trigger] group[i]),
        search::resolved_group(setting, group, path, s) matches Some(t) && search::extends(t, f),
    ensures
        search::resolved_group(locked_to(setting, packages), group, path, s)
            == search::resolved_group(setting, group, path, s),
    decreases search::room(setting.available, path), 1nat, group.len(),
{
    if group.len() > 0 {
        let front = group.drop_last();
        let last = group.last();
        let u = search::resolved_group(setting, front, path, s)->0;
        let t = search::resolved_group(setting, group, path, s)->0;
        assert forall|i: int| 0 <= i < front.len() implies laws::demanded(
            setting.available,
            #[trigger] front[i],
        ) by {
            assert(front[i] == group[i]);
        }
        assert(last == group[group.len() - 1]);
        laws::lemma_resolved_group(setting, roots, front, path, s);
        if table::get(u.selected, last.name) is None {
            laws::lemma_resolved(setting, roots, last.name, Some(last), false, path, u);
            search::lemma_extends_transitive(u, t, f);
        }
        lemma_group_again(setting, roots, packages, front, path, s, f);
        if table::get(u.selected, last.name) is None {
            lemma_resolved_again(
                setting,
                roots,
                packages,
                last.name,
                Some(last),
                false,
                path,
                u,
                f,
            );
        }
    }
}

proof fn lemma_any_again(
    setting: Setting,
    roots: Seq<Text>,
    packages: Seq<LockfilePackageView>,
    groups: Seq<Seq<DepConstraintView>>,
    path: Seq<Text>,
    s: State,
    f: State,
)
    requires
        pinned(setting, packages, f),
        laws::sound(setting, roots, path, s),
        all_demanded(setting, groups),
        one_in_reach(setting, packages, groups),
        search::resolved_any(setting, groups, path, s) matches Some(t) && search::extends(t, f),
    ensures
        search::resolved_any(locked_to(setting, packages), groups, path, s)
            == search::resolved_any(setting, groups, path, s),
    decreases search::room(setting.available, path), 2nat, groups.len(),
{
    let front = groups.drop_last();
    let last = groups.last();
    let n = groups.len() - 1;
    let t = search::resolved_any(setting, groups, path, s)->0;
    assert(all_demanded(setting, front)) by {
        assert forall|i: int, j: int|
            0 <= i < front.len() && 0 <= j < front[i].len() implies laws::demanded(
            setting.available,
            #[trigger] front[i][j],
        ) by {
            assert(front[i][j] == groups[i][j]);
        }
    }
    if search::resolved_any(setting, front, path, s) is Some {
        assert(one_in_reach(setting, packages, front)) by {
            assert forall|i: int, j: int|
                #![trigger front[i], front[j]]
                0 <= i < j < front.len() implies !all_in_reach(setting, packages, front[i])
                || !all_in_reach(setting, packages, front[j]) by {
                assert(front[i] == groups[i] && front[j] == groups[j]);
            }
        }
        lemma_any_again(setting, roots, packages, front, path, s, f);
    } else {
        assert(last == groups[n]);
        assert forall|j: int| 0 <= j < last.len() implies laws::demanded(
            setting.available,
            #[trigger] last[j],
        ) by {
            assert(groups[n][j] == last[j]);
        }
        laws::lemma_resolved_group(setting, roots, last, path, s);
        search::lemma_extends_transitive(s, t, f);
        lemma_group_again(setting, roots, packages, last, path, s, f);
        lemma_sound_again(setting, roots, packages, path, s, f);
        lemma_strict_in_reach(setting, roots, packages, last, path, s);
        assert forall|i: int| 0 <= i < front.len() implies !all_in_reach(
            setting,
            packages,
            #[trigger] front[i],
        ) by {
            assert(front[i] == groups[i]);
            assert(groups[n] == last);
        }
        lemma_none_in_reach(setting, roots, packages, front, path, s);
    }
}

proof fn lemma_roots_again(
    setting: Setting,
    roots: Seq<Text>,
    packages: Seq<LockfilePackageView>,
    names: Seq<Text>,
    f: State,
)
    requires
        pinned(setting, packages, f),
        forall|i: int| 0 <= i < names.len() ==> roots.contains(#[trigger] names[i]),
        request::resolved_roots(setting, names) matches Ok(t) && search::extends(t, f),
    ensures
        request::resolved_roots(locked_to(setting, packages), names) == request::resolved_roots(
            setting,
            names,
        ),
    decreases names.len(),
{
    if names.len() > 0 {
        let front = names.drop_last();
        let last = names.last();
        let u = request::resolved_roots(setting, front)->Ok_0;
        let t = request::resolved_roots(setting, names)->Ok_0;
        assert forall|i: int| 0 <= i < front.len() implies roots.contains(#[trigger] front[i]) by {
            assert(front[i] == names[i]);
        }
        assert(last == names[names.len() - 1]);
        laws::lemma_roots(setting, roots, front);
        laws::lemma_resolved(setting, roots, last, None, true, Seq::empty(), u);
        search::lemma_extends_transitive(u, t, f);
        lemma_roots_again(setting, roots, packages, front, f);
        lemma_resolved_again(setting, roots, packages, last, None, true, Seq::empty(), u, f);
    }
}

/// Whether selected manifests that share a step have the same revision.
pub open spec fn revisions_agree(selected: order::Selected) -> bool {
    forall|a: ManifestView, b: ManifestView|
        #![trigger order_laws::selects(selected, a), order_laws::selects(selected, b)]
        order_laws::selects(selected, a) && order_laws::selects(selected, b) && order::key_of(a)
            == order::key_of(b) ==> a.revision == b.revision
}

/// The lockfile of a plan reproduces the plan: under it, in strict mode, the same request has the
/// same plan. Where packages have alternatives, the search may take one under the lockfile that it
/// could not take without; so of each selected package at most one alternative is within reach of the
/// plan and the system. And no two manifests are selected whose versions rank equal but whose
/// revisions differ: of those only one has a step.
pub proof fn lemma_lockfile_reproduces_plan(setting: Setting, names: Seq<Text>, p: PlanView)
    requires
        available::well_indexed(setting.available),
        setting.lockfile is None,
        request::plan_for_names(setting, names) == Ok::<_, ResolverFailureView>(p),
        choices_forced(
            setting,
            plan::plan_lockfile(p.steps),
            request::resolved_roots(setting, names)->Ok_0.selected,
        ),
        revisions_agree(settle::settle(request::resolved_roots(setting, names)->Ok_0).selected),
    ensures
        request::plan_for_names(locked_to(setting, plan::plan_lockfile(p.steps)), names) == Ok::<
            _,
            ResolverFailureView,
        >(p),
{
    let packages = plan::plan_lockfile(p.steps);
    let r = request::resolved_roots(setting, names)->Ok_0;
    let s = settle::settle(r);
    assert(laws::makes_plan(setting, names, s, p));
    laws::lemma_roots(setting, names, names);
    laws::lemma_plan_ordered(setting, names, s, p);
    laws::lemma_selected_allowed(setting, names, s, p);
    settle::lemma_adopted(r.selected, r.satisfied);
    order_laws::lemma_one_step_each(s.selected, setting.installed);
    assert(all_locked(packages, r)) by {
        assert forall|n: Text| (#[trigger] table::get(r.selected, n)) is Some implies
            choice::is_locked(packages, table::get(r.selected, n)->0) by {
            let m = table::get(r.selected, n)->0;
            assert(table::has(r.selected, n));
            assert(table::get(s.selected, n) == Some(m));
            assert(laws::in_index(setting.available, m));
            let k = table::lemma_index(s.selected, n);
            assert(order::planned(p.steps, order::key_of(s.selected[k].1)));
            let i = choose|i: int|
                0 <= i < p.steps.len() && order::step_key(#[trigger] p.steps[i]) == order::key_of(
                    m,
                );
            let u = laws::lemma_step_manifest(s.selected, setting.installed, i);
            let of = choose|of: Text| #[trigger] table::get(s.selected, of) == Some(u);
            assert(order_laws::selects(s.selected, u) && order_laws::selects(s.selected, m));
            assert(u.revision == m.revision);
            assert(packages[i] == plan::locked_step(p.steps[i]));
            assert(choice::locks(packages[i], m));
        }
    }
    assert forall|i: int| 0 <= i < names.len() implies names.contains(#[trigger] names[i]) by {}
    lemma_roots_again(setting, names, packages, names, r);
}

/// Where no selected package has alternatives, the lockfile of a plan reproduces the plan, but for
/// manifests that share a step and differ in their revisions.
pub proof fn lemma_lockfile_reproduces_plain_plan(setting: Setting, names: Seq<Text>, p: PlanView)
    requires
        available::well_indexed(setting.available),
        setting.lockfile is None,
        request::plan_for_names(setting, names) == Ok::<_, ResolverFailureView>(p),
        without_alternatives(request::resolved_roots(setting, names)->Ok_0.selected),
        revisions_agree(settle::settle(request::resolved_roots(setting, names)->Ok_0).selected),
    ensures
        request::plan_for_names(locked_to(setting, plan::plan_lockfile(p.steps)), names) == Ok::<
            _,
            ResolverFailureView,
        >(p),
{
    lemma_lockfile_reproduces_plan(setting, names, p);
}

/// Whether no selected manifest has alternatives.
pub open spec fn without_alternatives(selected: order::Selected) -> bool {
    forall|n: Text|
        (#[trigger] table::get(selected, n)) matches Some(m) ==> m.depends_any.len() == 0
}

} // verus!
