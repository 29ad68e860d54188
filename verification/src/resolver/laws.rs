//! What holds of every selection and plan of the resolver.

use vstd::prelude::*;

use crate::dep_constraint;
use crate::dep_constraint::DepConstraintView;
use crate::lists;
use crate::manifest::ManifestView;
use crate::resolver::available;
use crate::resolver::available::Index;
use crate::resolver::choice;
use crate::resolver::choice::Setting;
use crate::resolver::order;
use crate::resolver::order::Selected;
use crate::resolver::order_laws;
use crate::resolver::plan;
use crate::resolver::plan::{LockfileMode, PlanStepView, PlanView, UpgradePolicy};
use crate::resolver::request;
use crate::resolver::search;
use crate::resolver::search::{extends, lemma_extends_transitive, State};
use crate::resolver::settle;
use crate::resolver::settle::{all_met, any_met, dependencies_met, met};
use crate::storage::installed;
use crate::storage::installed::InstalledEntryView;
use crate::storage::lockfile;
use crate::storage::lockfile::LockfilePackageView;
use crate::table;
use crate::text::Text;

verus! {

/// Whether the manifest is available.
pub open spec fn in_index(t: Index, m: ManifestView) -> bool {
    available::versions_of(t, m.name).contains(m)
}

/// Whether the manifest has the constraint, by itself or in an alternative.
pub open spec fn requires_constraint(m: ManifestView, c: DepConstraintView) -> bool {
    ||| m.depends.contains(c)
    ||| exists|i: int| 0 <= i < m.depends_any.len() && (#[trigger] m.depends_any[i]).contains(c)
}

/// Whether an available manifest has the constraint.
pub open spec fn demanded(t: Index, c: DepConstraintView) -> bool {
    exists|m: ManifestView| #[trigger] in_index(t, m) && requires_constraint(m, c)
}

/// Whether the lockfile allows the manifest: in strict mode its name, version and revision are
/// locked, in flexible mode no newer version of it is.
pub open spec fn lockfile_allows(setting: Setting, m: ManifestView) -> bool {
    match setting.lockfile {
        Some((packages, LockfileMode::Strict)) => choice::is_locked(packages, m),
        Some((packages, LockfileMode::Flexible(_))) => choice::not_below(
            lockfile::locked_for(packages, m.name),
            m,
        ),
        None => true,
    }
}

/// Whether the manifest can stand for the name: it is a version of that package or, where there
/// is no such package, provides the name.
pub open spec fn stands_for(t: Index, m: ManifestView, name: Text) -> bool {
    m.name == name || (!table::has(t, name) && m.provides.contains(name))
}

/// Whether the manifest was chosen for the name as a root, or for a constraint of an available
/// manifest that the system does not satisfy.
pub open spec fn justified(setting: Setting, roots: Seq<Text>, name: Text, m: ManifestView) -> bool {
    exists|c: Option<DepConstraintView>|
        #![trigger choice::chosen(setting, name, c)]
        {
            &&& choice::chosen(setting, name, c) == Ok::<_, crate::failure::ResolverFailureView>(m)
            &&& roots.contains(name) || (c matches Some(d) && d.name == name && demanded(
                setting.available,
                d,
            ) && search::system_version(setting, name, c) is None)
        }
}

/// What holds of every state of the search while the names on the path are being resolved.
pub open spec fn sound(setting: Setting, roots: Seq<Text>, path: Seq<Text>, s: State) -> bool {
    &&& search::ordered(s)
    &&& forall|n: Text| #[trigger]
        table::has(s.selected, n) ==> justified(
            setting,
            roots,
            n,
            table::get(s.selected, n)->0,
        )
    &&& forall|n: Text| #[trigger]
        table::has(s.satisfied, n) ==> setting.system is Some && table::get(s.satisfied, n)
            == table::get(setting.system->0, n)
    &&& forall|n: Text| #[trigger]
        table::has(s.selected, n) && !path.contains(n) ==> dependencies_met(
            s,
            table::get(s.selected, n)->0,
        )
}

proof fn lemma_met_persists(s: State, t: State, c: DepConstraintView)
    requires
        extends(s, t),
        met(s, c),
    ensures
        met(t, c),
{
    if table::get(s.selected, c.name) is Some {
        assert(table::has(s.selected, c.name));
    }
    if table::get(s.satisfied, c.name) is Some {
        assert(table::has(s.satisfied, c.name));
    }
}

proof fn lemma_all_met_persists(s: State, t: State, deps: Seq<DepConstraintView>)
    requires
        extends(s, t),
        all_met(s, deps),
    ensures
        all_met(t, deps),
{
    assert forall|i: int| 0 <= i < deps.len() implies met(t, #[trigger] deps[i]) by {
        lemma_met_persists(s, t, deps[i]);
    }
}

proof fn lemma_dependencies_persist(s: State, t: State, m: ManifestView)
    requires
        extends(s, t),
        dependencies_met(s, m),
    ensures
        dependencies_met(t, m),
{
    lemma_all_met_persists(s, t, m.depends);
    if m.depends_any.len() > 0 {
        let i = choose|i: int|
            0 <= i < m.depends_any.len() && all_met(s, #[trigger] m.depends_any[i]);
        lemma_all_met_persists(s, t, m.depends_any[i]);
        assert(all_met(t, m.depends_any[i]));
    }
}

/// The lockfile entries for a name are the entries with that name.
proof fn lemma_locked_for(packages: Seq<LockfilePackageView>, name: Text, i: int) -> (k: int)
    requires
        0 <= i < lockfile::locked_for(packages, name).len(),
    ensures
        0 <= k < packages.len(),
        packages[k] == lockfile::locked_for(packages, name)[i],
        packages[k].name == name,
{
    let locked = lockfile::locked_for(packages, name);
    lists::lemma_filter(packages, lockfile::named(name));
    assert(locked.contains(locked[i]));
    choose|k: int| 0 <= k < packages.len() && packages[k] == locked[i]
}

/// The preferred of the manifests is one of them.
pub proof fn lemma_preferred(setting: Setting, name: Text, list: Seq<ManifestView>)
    requires
        list.len() > 0,
    ensures
        list.contains(choice::preferred(setting, name, list)),
{
    if let Some(e) = installed::entry_of(setting.installed, name) {
        let same = choice::same_release(list, e);
        lists::lemma_filter(list, choice::released_as(e));
        if same.len() > 0 {
            assert(same.contains(same[0]));
        }
    }
    assert(list.contains(list.last()));
}

proof fn lemma_providers(t: Index, name: Text, m: ManifestView)
    requires
        available::well_indexed(t),
        available::providers(t, name).contains(m),
    ensures
        in_index(t, m),
        m.provides.contains(name),
{
    let k = lemma_providers_at(t, name, m);
    let j = choose|j: int| 0 <= j < t[k].1.len() && t[k].1[j] == m;
    table::lemma_get(t, k);
    assert(t[k].1[j].name == t[k].0);
}

proof fn lemma_providers_at(t: Index, name: Text, m: ManifestView) -> (k: int)
    requires
        available::providers(t, name).contains(m),
    ensures
        0 <= k < t.len(),
        t[k].1.contains(m),
        m.provides.contains(name),
    decreases t.len(),
{
    let d = t.drop_last();
    let list = t.last().1;
    lists::lemma_concat_contains(
        available::providers(d, name),
        available::providing(list, name),
        m,
    );
    lists::lemma_filter(list, available::provides(name));
    if available::providing(list, name).contains(m) {
        t.len() - 1
    } else {
        lemma_providers_at(d, name, m)
    }
}

/// What is chosen for a name is available, stands for the name, meets the constraint and is
/// allowed by the lockfile.
pub proof fn lemma_chosen(
    setting: Setting,
    name: Text,
    constraint: Option<DepConstraintView>,
    m: ManifestView,
)
    requires
        available::well_indexed(setting.available),
        choice::chosen(setting, name, constraint) == Ok::<_, crate::failure::ResolverFailureView>(
            m,
        ),
    ensures
        in_index(setting.available, m),
        stands_for(setting.available, m, name),
        choice::meets(constraint, m.version),
        lockfile_allows(setting, m),
{
    let t = setting.available;
    match table::get(t, name) {
        Some(versions) => {
            let fitting = choice::candidates(versions, constraint);
            let k = table::lemma_index(t, name);
            lists::lemma_filter(versions, choice::meeting(constraint));
            match setting.lockfile {
                Some((packages, LockfileMode::Strict)) => {
                    let locked = lockfile::locked_for(packages, name);
                    let list = choice::locked_releases(fitting, locked);
                    lemma_preferred(setting, name, list);
                    lists::lemma_filter(fitting, choice::release_in(locked));
                    assert(fitting.contains(m));
                    assert(choice::release_locked(locked, m));
                    let i = choose|i: int|
                        0 <= i < locked.len() && crate::version::version_eq(
                            (#[trigger] locked[i]).version,
                            m.version,
                        ) && locked[i].revision == m.revision;
                    let p = lemma_locked_for(packages, name, i);
                    let j = choose|j: int| 0 <= j < versions.len() && versions[j] == m;
                    assert(t[k].1[j].name == t[k].0);
                    assert(choice::locks(packages[p], m));
                },
                Some((packages, LockfileMode::Flexible(_))) => {
                    let locked = lockfile::locked_for(packages, name);
                    if locked.len() > 0 {
                        let list = choice::not_older(fitting, locked);
                        lemma_preferred(setting, name, list);
                        lists::lemma_filter(fitting, choice::not_below_any(locked));
                    } else {
                        lemma_preferred(setting, name, fitting);
                    }
                },
                None => {
                    lemma_preferred(setting, name, fitting);
                },
            }
            assert(fitting.contains(m));
            let j = choose|j: int| 0 <= j < versions.len() && versions[j] == m;
            assert(t[k].1[j].name == t[k].0);
        },
        None => {
            let all = available::providers(t, name);
            let allowed = choice::allowed_providers(all, setting.lockfile);
            let fitting = choice::candidates(allowed, constraint);
            lists::lemma_filter(allowed, choice::meeting(constraint));
            lists::lemma_filter(all, choice::allowed_by(setting.lockfile));
            assert(fitting.contains(fitting.last()));
            assert(allowed.contains(m));
            assert(all.contains(m));
            lemma_providers(t, name, m);
            assert(choice::allowed_by(setting.lockfile)(m));
        },
    }
}

proof fn lemma_has_get<V>(t: Seq<(Text, V)>, n: Text)
    ensures
        table::has(t, n) == table::get(t, n) is Some,
{
}

/// Resolving a name keeps the state sound, keeps what it had, and meets the constraint.
pub proof fn lemma_resolved(
    setting: Setting,
    roots: Seq<Text>,
    name: Text,
    constraint: Option<DepConstraintView>,
    explicit: bool,
    path: Seq<Text>,
    s: State,
)
    requires
        available::well_indexed(setting.available),
        sound(setting, roots, path, s),
        constraint matches Some(c) ==> c.name == name && demanded(setting.available, c),
        explicit ==> roots.contains(name),
        constraint is None ==> explicit,
    ensures
        search::resolved(setting, name, constraint, explicit, path, s) matches Ok(t) ==> sound(
            setting,
            roots,
            path,
            t,
        ) && extends(s, t) && (constraint matches Some(c) ==> met(t, c)) && (explicit
            ==> table::has(t.selected, name)),
    decreases search::room(setting.available, path), 0nat, 0nat,
{
    let r = search::resolved(setting, name, constraint, explicit, path, s);
    if path.contains(name) {
    } else if table::has(s.selected, name) {
    } else if !explicit && search::system_version(setting, name, constraint) is Some {
        let v = search::system_version(setting, name, constraint)->0;
        let t = r->Ok_0;
        table::lemma_put(s.satisfied, name, v);
        assert(extends(s, t)) by {
            assert forall|n: Text| #[trigger] table::has(s.satisfied, n) implies table::get(
                t.satisfied,
                n,
            ) == table::get(s.satisfied, n) by {
                if n == name {
                    assert(table::get(setting.system->0, name) == Some(v));
                }
            }
        }
        lemma_sound_extends(setting, roots, path, s, t);
    } else {
        match choice::chosen(setting, name, constraint) {
            Err(_) => {},
            Ok(m) => {
                let inner = path.push(name);
                let u = search::with_selected(s, name, m);
                search::lemma_chosen_known(setting, name, constraint);
                search::lemma_room(setting.available, path, name);
                lemma_chosen(setting, name, constraint, m);
                table::lemma_put(s.selected, name, m);
                lemma_begin_sound(setting, roots, path, name, constraint, m, s);
                lemma_demands(setting, name, constraint, m);
                lemma_resolved_all(setting, roots, m.depends, inner, u);
                if let Ok(t) = search::resolved_all(setting, m.depends, inner, u) {
                    lemma_extends_transitive(s, u, t);
                    assert(table::has(u.selected, name));
                    lemma_has_get(t.selected, name);
                    if m.depends_any.len() == 0 {
                        assert(dependencies_met(t, m));
                        lemma_close(setting, roots, path, name, m, t);
                    } else {
                        lemma_resolved_any(setting, roots, m.depends_any, inner, t);
                        if let Some(w) = search::resolved_any(
                            setting,
                            m.depends_any,
                            inner,
                            t,
                        ) {
                            lemma_extends_transitive(s, t, w);
                            lemma_all_met_persists(t, w, m.depends);
                            assert(table::has(t.selected, name));
                            lemma_has_get(w.selected, name);
                            assert(dependencies_met(w, m));
                            lemma_close(setting, roots, path, name, m, w);
                        }
                    }
                }
            },
        }
    }
}

/// A state stays sound when a manifest is chosen for a name, which goes on the path.
pub proof fn lemma_begin_sound(
    setting: Setting,
    roots: Seq<Text>,
    path: Seq<Text>,
    name: Text,
    constraint: Option<DepConstraintView>,
    m: ManifestView,
    s: State,
)
    requires
        sound(setting, roots, path, s),
        !table::has(s.selected, name),
        choice::chosen(setting, name, constraint) == Ok::<_, crate::failure::ResolverFailureView>(
            m,
        ),
        roots.contains(name) || (constraint matches Some(c) && c.name == name && demanded(
            setting.available,
            c,
        ) && search::system_version(setting, name, constraint) is None),
    ensures
        sound(setting, roots, path.push(name), search::with_selected(s, name, m)),
        extends(s, search::with_selected(s, name, m)),
{
    let inner = path.push(name);
    let u = search::with_selected(s, name, m);
    table::lemma_put(s.selected, name, m);
    assert(justified(setting, roots, name, m));
    assert(extends(s, u));
    assert forall|n: Text| #[trigger] table::has(u.selected, n) && !inner.contains(
        n,
    ) implies dependencies_met(u, table::get(u.selected, n)->0) by {
        lists::lemma_push_contains(path, name, n);
        lists::lemma_push_contains(path, name, name);
        assert(table::has(s.selected, n));
        lemma_dependencies_persist(s, u, table::get(s.selected, n)->0);
    }
}

/// The constraints of a chosen manifest are those of an available one.
pub proof fn lemma_demands(
    setting: Setting,
    name: Text,
    constraint: Option<DepConstraintView>,
    m: ManifestView,
)
    requires
        available::well_indexed(setting.available),
        choice::chosen(setting, name, constraint) == Ok::<_, crate::failure::ResolverFailureView>(
            m,
        ),
    ensures
        forall|i: int|
            0 <= i < m.depends.len() ==> demanded(setting.available, #[trigger] m.depends[i]),
        forall|i: int, j: int|
            0 <= i < m.depends_any.len() && 0 <= j < m.depends_any[i].len() ==> demanded(
                setting.available,
                #[trigger] m.depends_any[i][j],
            ),
{
    lemma_chosen(setting, name, constraint, m);
    assert forall|i: int| 0 <= i < m.depends.len() implies demanded(
        setting.available,
        #[trigger] m.depends[i],
    ) by {
        assert(m.depends.contains(m.depends[i]));
        assert(requires_constraint(m, m.depends[i]));
    }
    assert forall|i: int, j: int|
        0 <= i < m.depends_any.len() && 0 <= j < m.depends_any[i].len() implies demanded(
        setting.available,
        #[trigger] m.depends_any[i][j],
    ) by {
        assert(m.depends_any[i].contains(m.depends_any[i][j]));
        assert(requires_constraint(m, m.depends_any[i][j]));
    }
}

/// When the dependencies of a name are met, it can leave the path.
proof fn lemma_close(
    setting: Setting,
    roots: Seq<Text>,
    path: Seq<Text>,
    name: Text,
    m: ManifestView,
    t: State,
)
    requires
        sound(setting, roots, path.push(name), t),
        table::get(t.selected, name) == Some(m),
        dependencies_met(t, m),
    ensures
        sound(setting, roots, path, t),
{
    assert forall|n: Text| #[trigger] table::has(t.selected, n) && !path.contains(
        n,
    ) implies dependencies_met(t, table::get(t.selected, n)->0) by {
        lists::lemma_push_contains(path, name, n);
    }
}

/// A state with nothing more selected stays sound.
proof fn lemma_sound_extends(
    setting: Setting,
    roots: Seq<Text>,
    path: Seq<Text>,
    s: State,
    t: State,
)
    requires
        sound(setting, roots, path, s),
        extends(s, t),
        search::ordered(t),
        t.selected == s.selected,
        forall|n: Text| #[trigger]
            table::has(t.satisfied, n) ==> setting.system is Some && table::get(t.satisfied, n)
                == table::get(setting.system->0, n),
    ensures
        sound(setting, roots, path, t),
{
    assert forall|n: Text| #[trigger] table::has(t.selected, n) && !path.contains(
        n,
    ) implies dependencies_met(t, table::get(t.selected, n)->0) by {
        lemma_dependencies_persist(s, t, table::get(s.selected, n)->0);
    }
}

/// Resolving dependencies keeps the state sound, keeps what it had, and meets them all.
pub proof fn lemma_resolved_all(
    setting: Setting,
    roots: Seq<Text>,
    deps: Seq<DepConstraintView>,
    path: Seq<Text>,
    s: State,
)
    requires
        available::well_indexed(setting.available),
        sound(setting, roots, path, s),
        forall|i: int| 0 <= i < deps.len() ==> demanded(setting.available, #[trigger] deps[i]),
    ensures
        search::resolved_all(setting, deps, path, s) matches Ok(t) ==> sound(
            setting,
            roots,
            path,
            t,
        ) && extends(s, t) && all_met(t, deps),
    decreases search::room(setting.available, path), 1nat, deps.len(),
{
    if deps.len() > 0 {
        let front = deps.drop_last();
        let last = deps.last();
        assert forall|i: int| 0 <= i < front.len() implies demanded(
            setting.available,
            #[trigger] front[i],
        ) by {
            assert(front[i] == deps[i]);
        }
        lemma_resolved_all(setting, roots, front, path, s);
        if let Ok(u) = search::resolved_all(setting, front, path, s) {
            assert(last == deps[deps.len() - 1]);
            lemma_resolved(setting, roots, last.name, Some(last), false, path, u);
            if let Ok(t) = search::resolved(setting, last.name, Some(last), false, path, u) {
                lemma_extends_transitive(s, u, t);
                lemma_all_met_persists(u, t, front);
                assert forall|i: int| 0 <= i < deps.len() implies met(t, #[trigger] deps[i]) by {
                    if i < front.len() {
                        assert(front[i] == deps[i]);
                    }
                }
            }
        }
    }
}

/// Resolving an alternative keeps the state sound, keeps what it had, and meets all of it.
pub proof fn lemma_resolved_group(
    setting: Setting,
    roots: Seq<Text>,
    group: Seq<DepConstraintView>,
    path: Seq<Text>,
    s: State,
)
    requires
        available::well_indexed(setting.available),
        sound(setting, roots, path, s),
        forall|i: int| 0 <= i < group.len() ==> demanded(setting.available, #[trigger] group[i]),
    ensures
        search::resolved_group(setting, group, path, s) matches Some(t) ==> sound(
            setting,
            roots,
            path,
            t,
        ) && extends(s, t) && all_met(t, group),
    decreases search::room(setting.available, path), 1nat, group.len(),
{
    if group.len() > 0 {
        let front = group.drop_last();
        let last = group.last();
        assert forall|i: int| 0 <= i < front.len() implies demanded(
            setting.available,
            #[trigger] front[i],
        ) by {
            assert(front[i] == group[i]);
        }
        lemma_resolved_group(setting, roots, front, path, s);
        if let Some(u) = search::resolved_group(setting, front, path, s) {
            assert(last == group[group.len() - 1]);
            lemma_resolved(setting, roots, last.name, Some(last), false, path, u);
            if let Some(t) = search::resolved_group(setting, group, path, s) {
                if table::get(u.selected, last.name) is None {
                    lemma_extends_transitive(s, u, t);
                    lemma_all_met_persists(u, t, front);
                }
                assert forall|i: int| 0 <= i < group.len() implies met(
                    t,
                    #[trigger] group[i],
                ) by {
                    if i < front.len() {
                        assert(front[i] == group[i]);
                    }
                }
            }
        }
    }
}

/// Resolving one of several alternatives keeps the state sound, keeps what it had, and meets one.
pub proof fn lemma_resolved_any(
    setting: Setting,
    roots: Seq<Text>,
    groups: Seq<Seq<DepConstraintView>>,
    path: Seq<Text>,
    s: State,
)
    requires
        available::well_indexed(setting.available),
        sound(setting, roots, path, s),
        forall|i: int, j: int|
            0 <= i < groups.len() && 0 <= j < groups[i].len() ==> demanded(
                setting.available,
                #[trigger] groups[i][j],
            ),
    ensures
        search::resolved_any(setting, groups, path, s) matches Some(t) ==> sound(
            setting,
            roots,
            path,
            t,
        ) && extends(s, t) && any_met(t, groups),
    decreases search::room(setting.available, path), 2nat, groups.len(),
{
    if groups.len() > 0 {
        let front = groups.drop_last();
        let last = groups.last();
        assert forall|i: int, j: int|
            0 <= i < front.len() && 0 <= j < front[i].len() implies demanded(
            setting.available,
            #[trigger] front[i][j],
        ) by {
            assert(front[i][j] == groups[i][j]);
        }
        lemma_resolved_any(setting, roots, front, path, s);
        match search::resolved_any(setting, front, path, s) {
            Some(t) => {
                let i = choose|i: int| 0 <= i < front.len() && all_met(t, #[trigger] front[i]);
                assert(all_met(t, groups[i]));
            },
            None => {
                let n = groups.len() - 1;
                assert forall|j: int| 0 <= j < last.len() implies demanded(
                    setting.available,
                    #[trigger] last[j],
                ) by {
                    assert(groups[n][j] == last[j]);
                }
                lemma_resolved_group(setting, roots, last, path, s);
                if let Some(t) = search::resolved_group(setting, last, path, s) {
                    assert(all_met(t, groups[n]));
                }
            },
        }
    }
}

/// Resolving names as requests gives a sound state in which all of them are selected.
pub proof fn lemma_roots(setting: Setting, roots: Seq<Text>, names: Seq<Text>)
    requires
        available::well_indexed(setting.available),
        forall|i: int| 0 <= i < names.len() ==> roots.contains(#[trigger] names[i]),
    ensures
        request::resolved_roots(setting, names) matches Ok(s) ==> sound(
            setting,
            roots,
            Seq::empty(),
            s,
        ) && forall|i: int|
            0 <= i < names.len() ==> table::has(s.selected, #[trigger] names[i]),
    decreases names.len(),
{
    if names.len() > 0 {
        let front = names.drop_last();
        let last = names.last();
        assert forall|i: int| 0 <= i < front.len() implies roots.contains(#[trigger] front[i]) by {
            assert(front[i] == names[i]);
        }
        lemma_roots(setting, roots, front);
        if let Ok(u) = request::resolved_roots(setting, front) {
            assert(last == names[names.len() - 1]);
            lemma_resolved(setting, roots, last, None, true, Seq::empty(), u);
            if let Ok(s) = request::resolved_roots(setting, names) {
                assert forall|i: int| 0 <= i < names.len() implies table::has(
                    s.selected,
                    #[trigger] names[i],
                ) by {
                    if i < front.len() {
                        assert(front[i] == names[i]);
                        assert(table::has(u.selected, names[i]));
                        lemma_has_get(s.selected, names[i]);
                    }
                }
            }
        }
    }
}

/// A plan is made from a settled selection without conflicts, unmet dependencies and circles: the
/// steps for what is selected, in order, and what is left to the system.
pub open spec fn makes_plan(setting: Setting, names: Seq<Text>, s: State, plan: PlanView) -> bool {
    &&& request::resolved_roots(setting, names) matches Ok(r) && s == settle::settle(r)
    &&& request::plan_for(s, setting.installed) == Ok::<_, crate::failure::ResolverFailureView>(
        plan,
    )
}

/// The selection behind a plan, before it was settled, is sound.
proof fn lemma_before_settling(setting: Setting, names: Seq<Text>, s: State, plan: PlanView) -> (r:
    State)
    requires
        available::well_indexed(setting.available),
        makes_plan(setting, names, s, plan),
    ensures
        s == settle::settle(r),
        request::resolved_roots(setting, names) == Ok::<_, crate::failure::ResolverFailureView>(r),
        sound(setting, names, Seq::empty(), r),
        search::ordered(s),
        forall|i: int| 0 <= i < names.len() ==> table::has(r.selected, #[trigger] names[i]),
        forall|n: Text| #[trigger]
            table::has(r.selected, n) ==> table::get(s.selected, n) == table::get(r.selected, n),
        forall|n: Text|
            (#[trigger] table::get(s.selected, n)) matches Some(m) ==> table::get(r.selected, n)
                == Some(m) || (m.name == n && exists|k: Text| #[trigger]
                table::get(r.selected, k) == Some(m)),
        forall|n: Text|
            (#[trigger] table::get(s.satisfied, n)) is Some ==> !table::has(s.selected, n)
                && table::get(s.satisfied, n) == table::get(r.satisfied, n),
{
    lemma_roots(setting, names, names);
    let r = request::resolved_roots(setting, names)->Ok_0;
    settle::lemma_adopted(r.selected, r.satisfied);
    settle::lemma_settled_apart(r);
    r
}

/// The tables behind a plan are in order, and what is selected is not left to the system.
pub proof fn lemma_plan_ordered(setting: Setting, names: Seq<Text>, s: State, plan: PlanView)
    requires
        available::well_indexed(setting.available),
        makes_plan(setting, names, s, plan),
    ensures
        search::ordered(s),
        forall|n: Text|
            (#[trigger] table::get(s.satisfied, n)) is Some ==> !table::has(s.selected, n),
{
    let r = lemma_before_settling(setting, names, s, plan);
}

/// Every name that was asked for is selected: it is never left to the system.
pub proof fn lemma_requested_selected(setting: Setting, names: Seq<Text>, s: State, plan: PlanView)
    requires
        available::well_indexed(setting.available),
        makes_plan(setting, names, s, plan),
    ensures
        forall|i: int| 0 <= i < names.len() ==> table::has(s.selected, #[trigger] names[i]),
{
    let r = lemma_before_settling(setting, names, s, plan);
    assert forall|i: int| 0 <= i < names.len() implies table::has(
        s.selected,
        #[trigger] names[i],
    ) by {
        assert(table::has(r.selected, names[i]));
        lemma_has_get(s.selected, names[i]);
        lemma_has_get(r.selected, names[i]);
    }
}

/// What is selected for a name is available, stands for that name, and is allowed by the lockfile:
/// locked in strict mode, not older than what is locked in flexible mode.
pub proof fn lemma_selected_allowed(setting: Setting, names: Seq<Text>, s: State, plan: PlanView)
    requires
        available::well_indexed(setting.available),
        makes_plan(setting, names, s, plan),
    ensures
        forall|n: Text|
            (#[trigger] table::get(s.selected, n)) matches Some(m) ==> in_index(
                setting.available,
                m,
            ) && stands_for(setting.available, m, n) && lockfile_allows(setting, m),
{
    let r = lemma_before_settling(setting, names, s, plan);
    assert forall|n: Text| (#[trigger] table::get(s.selected, n)) is Some implies in_index(
        setting.available,
        table::get(s.selected, n)->0,
    ) && stands_for(setting.available, table::get(s.selected, n)->0, n) && lockfile_allows(
        setting,
        table::get(s.selected, n)->0,
    ) by {
        let m = table::get(s.selected, n)->0;
        let k = if table::get(r.selected, n) == Some(m) {
            n
        } else {
            choose|k: Text| #[trigger] table::get(r.selected, k) == Some(m)
        };
        assert(table::get(r.selected, k) == Some(m));
        assert(table::has(r.selected, k));
        let c = choose|c: Option<DepConstraintView>|
            #![trigger choice::chosen(setting, k, c)]
            {
                &&& choice::chosen(setting, k, c) == Ok::<_, crate::failure::ResolverFailureView>(m)
                &&& names.contains(k) || (c matches Some(d) && d.name == k && demanded(
                    setting.available,
                    d,
                ) && search::system_version(setting, k, c) is None)
            };
        lemma_chosen(setting, k, c, m);
    }
}

/// All dependencies of what is selected are met, by what is selected or by what is left to the
/// system, and of what has alternatives at least one alternative is met as a whole.
pub proof fn lemma_dependencies_met(setting: Setting, names: Seq<Text>, s: State, plan: PlanView)
    requires
        makes_plan(setting, names, s, plan),
    ensures
        forall|n: Text|
            (#[trigger] table::get(s.selected, n)) matches Some(m) ==> dependencies_met(s, m),
{
    settle::lemma_no_shortfall(s, 0);
    assert forall|n: Text| (#[trigger] table::get(s.selected, n)) is Some implies dependencies_met(
        s,
        table::get(s.selected, n)->0,
    ) by {
        let i = table::lemma_index(s.selected, n);
        assert(dependencies_met(s, s.selected[i].1));
    }
}

/// What the plan lists as satisfied by the system are the system's packages and versions. Without
/// system packages, or where there are none, all dependencies are met by what is selected.
pub proof fn lemma_satisfied_by_system(
    setting: Setting,
    names: Seq<Text>,
    s: State,
    plan: PlanView,
)
    requires
        available::well_indexed(setting.available),
        makes_plan(setting, names, s, plan),
    ensures
        plan.satisfied_by_system == s.satisfied,
        setting.system is None ==> plan.satisfied_by_system.len() == 0,
        setting.system matches Some(packages) && packages.len() == 0
            ==> plan.satisfied_by_system.len() == 0,
        forall|i: int|
            0 <= i < plan.satisfied_by_system.len() ==> setting.system is Some && table::get(
                setting.system->0,
                (#[trigger] plan.satisfied_by_system[i]).0,
            ) == Some(plan.satisfied_by_system[i].1),
{
    let r = lemma_before_settling(setting, names, s, plan);
    let t = plan.satisfied_by_system;
    assert forall|i: int| 0 <= i < t.len() implies setting.system is Some && table::get(
        setting.system->0,
        (#[trigger] t[i]).0,
    ) == Some(t[i].1) by {
        table::lemma_get(t, i);
        assert(table::get(s.satisfied, t[i].0) is Some);
        lemma_has_get(r.satisfied, t[i].0);
    }
    if t.len() > 0 {
        assert(setting.system is Some && table::get(setting.system->0, t[0].0) == Some(t[0].1));
    }
}

/// What the system satisfies is never proposed for install: no step of a plan is of a package that
/// the plan lists as satisfied by the system.
pub proof fn lemma_system_not_proposed(
    setting: Setting,
    names: Seq<Text>,
    s: State,
    plan: PlanView,
)
    requires
        available::well_indexed(setting.available),
        makes_plan(setting, names, s, plan),
    ensures
        forall|i: int, j: int|
            #![trigger plan.steps[i], plan.satisfied_by_system[j]]
            0 <= i < plan.steps.len() && 0 <= j < plan.satisfied_by_system.len()
                ==> plan.steps[i].name != plan.satisfied_by_system[j].0,
{
    let r = lemma_before_settling(setting, names, s, plan);
    settle::lemma_settled_apart(r);
    order_laws::lemma_dependencies_first(s.selected, setting.installed);
    assert forall|i: int, j: int|
        #![trigger plan.steps[i], plan.satisfied_by_system[j]]
        0 <= i < plan.steps.len() && 0 <= j < plan.satisfied_by_system.len() implies
        plan.steps[i].name != plan.satisfied_by_system[j].0 by {
        let m = lemma_step_manifest(s.selected, setting.installed, i);
        let k = choose|k: Text| #[trigger] table::get(s.selected, k) == Some(m);
        table::lemma_get(s.satisfied, j);
        assert(table::get(s.satisfied, s.satisfied[j].0) is Some);
        assert(table::get(s.selected, k) is Some);
    }
}

/// The selected manifest that a step is of.
pub proof fn lemma_step_manifest(
    selected: Selected,
    installed: Seq<InstalledEntryView>,
    i: int,
) -> (m: ManifestView)
    requires
        table::sorted(selected),
        0 <= i < order::ordered_steps(selected, installed).len(),
    ensures
        order_laws::selects(selected, m),
        order::ordered_steps(selected, installed)[i] == order::step_of(m, installed),
{
    let steps = order::ordered_steps(selected, installed);
    order_laws::lemma_dependencies_first(selected, installed);
    assert(order_laws::well_placed(selected, installed, steps, i));
    choose|m: ManifestView| #[trigger]
        order_laws::selects(selected, m) && steps[i] == order::step_of(m, installed)
            && order_laws::dependencies_before(selected, steps, i, m)
}

/// A package of the system that meets every constraint on its name is never selected for that name,
/// unless it was asked for, or was selected as the provider of another name.
pub proof fn lemma_system_preferred(
    setting: Setting,
    names: Seq<Text>,
    s: State,
    plan: PlanView,
    name: Text,
    v: Text,
)
    requires
        available::well_indexed(setting.available),
        makes_plan(setting, names, s, plan),
        !names.contains(name),
        setting.system matches Some(packages) && table::get(packages, name) == Some(v),
        forall|c: DepConstraintView| #[trigger]
            demanded(setting.available, c) && c.name == name ==> dep_constraint::satisfied(c, v),
    ensures
        table::has(s.selected, name) ==> exists|k: Text|
            k != name && #[trigger] table::get(s.selected, k) == table::get(s.selected, name),
{
    let r = lemma_before_settling(setting, names, s, plan);
    if table::has(r.selected, name) {
        let m = table::get(r.selected, name)->0;
        let c = choose|c: Option<DepConstraintView>|
            #![trigger choice::chosen(setting, name, c)]
            {
                &&& choice::chosen(setting, name, c) == Ok::<
                    _,
                    crate::failure::ResolverFailureView,
                >(m)
                &&& names.contains(name) || (c matches Some(d) && d.name == name && demanded(
                    setting.available,
                    d,
                ) && search::system_version(setting, name, c) is None)
            };
        assert(demanded(setting.available, c->0));
    } else if table::has(s.selected, name) {
        let m = table::get(s.selected, name)->0;
        assert(table::get(s.selected, name) == Some(m));
        lemma_has_get(r.selected, name);
        let k = choose|k: Text| #[trigger] table::get(r.selected, k) == Some(m);
        assert(table::has(r.selected, k));
        assert(table::get(s.selected, k) == Some(m));
    }
}

/// In strict mode every step of a plan is in the lockfile, with its name, version and revision.
pub proof fn lemma_strict_plan_locked(
    setting: Setting,
    names: Seq<Text>,
    s: State,
    plan: PlanView,
    packages: Seq<LockfilePackageView>,
)
    requires
        available::well_indexed(setting.available),
        makes_plan(setting, names, s, plan),
        setting.lockfile == Some((packages, LockfileMode::Strict)),
    ensures
        forall|i: int|
            0 <= i < plan.steps.len() ==> step_locked(packages, #[trigger] plan.steps[i]),
{
    let r = lemma_before_settling(setting, names, s, plan);
    lemma_selected_allowed(setting, names, s, plan);
    order_laws::lemma_dependencies_first(s.selected, setting.installed);
    assert forall|i: int| 0 <= i < plan.steps.len() implies step_locked(
        packages,
        #[trigger] plan.steps[i],
    ) by {
        assert(order_laws::well_placed(s.selected, setting.installed, plan.steps, i));
        let m = choose|m: ManifestView| #[trigger]
            order_laws::selects(s.selected, m) && plan.steps[i] == order::step_of(
                m,
                setting.installed,
            ) && order_laws::dependencies_before(s.selected, plan.steps, i, m);
        let n = choose|n: Text| #[trigger] table::get(s.selected, n) == Some(m);
        assert(lockfile_allows(setting, m));
        let k = choose|k: int| 0 <= k < packages.len() && choice::locks(#[trigger] packages[k], m);
        assert(packages[k].name == plan.steps[i].name);
    }
}

/// In flexible mode no step of a plan is older than what is locked of its package.
pub proof fn lemma_flexible_plan_not_older(
    setting: Setting,
    names: Seq<Text>,
    s: State,
    plan: PlanView,
    packages: Seq<LockfilePackageView>,
    policy: UpgradePolicy,
)
    requires
        available::well_indexed(setting.available),
        makes_plan(setting, names, s, plan),
        setting.lockfile == Some((packages, LockfileMode::Flexible(policy))),
    ensures
        forall|i: int, k: int|
            #![trigger plan.steps[i], packages[k]]
            0 <= i < plan.steps.len() && 0 <= k < packages.len() && packages[k].name
                == plan.steps[i].name ==> crate::version::version_le(
                packages[k].version,
                plan.steps[i].version,
            ),
{
    let r = lemma_before_settling(setting, names, s, plan);
    lemma_selected_allowed(setting, names, s, plan);
    order_laws::lemma_dependencies_first(s.selected, setting.installed);
    assert forall|i: int, k: int|
        #![trigger plan.steps[i], packages[k]]
        0 <= i < plan.steps.len() && 0 <= k < packages.len() && packages[k].name
            == plan.steps[i].name implies crate::version::version_le(
        packages[k].version,
        plan.steps[i].version,
    ) by {
        assert(order_laws::well_placed(s.selected, setting.installed, plan.steps, i));
        let m = choose|m: ManifestView| #[trigger]
            order_laws::selects(s.selected, m) && plan.steps[i] == order::step_of(
                m,
                setting.installed,
            ) && order_laws::dependencies_before(s.selected, plan.steps, i, m);
        let n = choose|n: Text| #[trigger] table::get(s.selected, n) == Some(m);
        assert(lockfile_allows(setting, m));
        let locked = lockfile::locked_for(packages, m.name);
        lists::lemma_filter(packages, lockfile::named(m.name));
        assert(packages.contains(packages[k]));
        assert(locked.contains(packages[k]));
        let j = choose|j: int| 0 <= j < locked.len() && locked[j] == packages[k];
        assert(crate::version::version_le(locked[j].version, m.version));
    }
}

/// Whether a lockfile entry has the name, the version and the revision of the step.
pub open spec fn step_locked(packages: Seq<LockfilePackageView>, step: PlanStepView) -> bool {
    exists|k: int|
        0 <= k < packages.len() && (#[trigger] packages[k]).name == step.name
            && crate::version::version_eq(packages[k].version, step.version) && packages[k].revision
            == step.revision
}

/// The lockfile of a plan locks every step of the plan.
pub proof fn lemma_lockfile_of_plan(plan: PlanView)
    ensures
        forall|i: int|
            0 <= i < plan.steps.len() ==> step_locked(
                plan::plan_lockfile(plan.steps),
                #[trigger] plan.steps[i],
            ),
{
    let packages = plan::plan_lockfile(plan.steps);
    assert forall|i: int| 0 <= i < plan.steps.len() implies step_locked(
        packages,
        #[trigger] plan.steps[i],
    ) by {
        assert(packages[i].name == plan.steps[i].name);
    }
}

proof fn lemma_conflict_from(selected: Selected, i: int)
    requires
        0 <= i <= selected.len(),
        order::conflict_from(selected, i) is None,
    ensures
        forall|j: int| i <= j < selected.len() ==> order::clashes(
            selected,
            (#[trigger] selected[j]).1,
        ).len() == 0,
    decreases selected.len() - i,
{
    if i < selected.len() {
        lemma_conflict_from(selected, i + 1);
    }
}

/// No selected package conflicts with a selected name.
pub proof fn lemma_no_conflicts(setting: Setting, names: Seq<Text>, s: State, plan: PlanView)
    requires
        makes_plan(setting, names, s, plan),
    ensures
        forall|i: int, k: int|
            0 <= i < s.selected.len() && 0 <= k < s.selected[i].1.conflicts.len() ==> !table::has(
                s.selected,
                #[trigger] s.selected[i].1.conflicts[k],
            ),
{
    lemma_conflict_from(s.selected, 0);
    assert forall|i: int, k: int|
        0 <= i < s.selected.len() && 0 <= k < s.selected[i].1.conflicts.len() implies !table::has(
        s.selected,
        #[trigger] s.selected[i].1.conflicts[k],
    ) by {
        let m = s.selected[i].1;
        let pred = order::selected_name(s.selected);
        lists::lemma_filter(m.conflicts, pred);
        assert(m.conflicts.contains(m.conflicts[k]));
        if pred(m.conflicts[k]) {
            assert(order::clashes(s.selected, m).contains(m.conflicts[k]));
        }
    }
}

/// With nothing installed there is nothing to upgrade.
pub proof fn lemma_upgrade_nothing(setting: Setting)
    requires
        setting.installed.len() == 0,
    ensures
        request::plan_for_names(setting, request::installed_names(setting.installed)) == Ok::<
            _,
            crate::failure::ResolverFailureView,
        >(PlanView { steps: Seq::empty(), satisfied_by_system: Seq::empty() }),
{
    reveal(Seq::filter);
    let s = search::nothing();
    assert(settle::settle(s).satisfied =~= Seq::empty());
    assert(settle::settle(s).selected =~= Seq::empty());
}

/// A forced removal of an installed package always has a plan, and an unforced one exactly when
/// no installed package depends on it.
pub proof fn lemma_removal(
    name: Text,
    available: Index,
    installed: Seq<InstalledEntryView>,
)
    requires
        installed::is_installed(installed, name),
    ensures
        request::removal(name, true, available, installed) is Ok,
        request::removal(name, false, available, installed) is Ok == (request::dependents(
            available,
            installed,
            name,
        ).len() == 0),
{
    installed::lemma_entry_of(installed, name);
}

/// What passes a filter stands in ascending order of versions, if the list does.
pub(crate) proof fn lemma_filter_ascends(list: Seq<ManifestView>, pred: spec_fn(ManifestView) -> bool)
    requires
        available::versions_ascend(list),
    ensures
        available::versions_ascend(list.filter(pred)),
    decreases list.len(),
{
    reveal(Seq::filter);
    if list.len() > 0 {
        let d = list.drop_last();
        let last = list.last();
        let front = d.filter(pred);
        let all = list.filter(pred);
        assert(available::versions_ascend(d));
        lemma_filter_ascends(d, pred);
        lists::lemma_filter(d, pred);
        assert forall|i: int, j: int|
            #![trigger all[i], all[j]]
            0 <= i < j < all.len() implies crate::version::version_le(
            all[i].version,
            all[j].version,
        ) && all[i].version != all[j].version by {
            if j < front.len() {
                assert(all[i] == front[i] && all[j] == front[j]);
            } else {
                assert(all[i] == front[i] && all[j] == list[list.len() - 1]);
                assert(front.contains(front[i]));
                let k = choose|k: int| 0 <= k < d.len() && d[k] == front[i];
                assert(list[k] == front[i]);
            }
        }
    }
}

/// Where an upgrade is preferred, or the package is not installed, the latest version that meets
/// the constraint is chosen (without a lockfile).
pub proof fn lemma_latest_chosen(
    setting: Setting,
    name: Text,
    constraint: Option<DepConstraintView>,
    m: ManifestView,
    other: ManifestView,
)
    requires
        available::well_indexed(setting.available),
        setting.lockfile is None,
        setting.prefer_upgrade || installed::entry_of(setting.installed, name) is None,
        table::has(setting.available, name),
        choice::chosen(setting, name, constraint) == Ok::<_, crate::failure::ResolverFailureView>(
            m,
        ),
        available::versions_of(setting.available, name).contains(other),
        choice::meets(constraint, other.version),
    ensures
        crate::version::version_le(other.version, m.version),
{
    let versions = available::versions_of(setting.available, name);
    let k = table::lemma_index(setting.available, name);
    assert(available::versions_ascend(setting.available[k].1));
    let fitting = choice::candidates(versions, constraint);
    lemma_filter_ascends(versions, choice::meeting(constraint));
    lists::lemma_filter(versions, choice::meeting(constraint));
    assert(fitting.contains(other));
    let i = choose|i: int| 0 <= i < fitting.len() && fitting[i] == other;
    assert(m == fitting[fitting.len() - 1]);
}

/// An installed package keeps its version if that is available and meets the constraint, unless an
/// upgrade is preferred (without a lockfile).
pub proof fn lemma_installed_kept(
    setting: Setting,
    name: Text,
    constraint: Option<DepConstraintView>,
    e: InstalledEntryView,
    kept: ManifestView,
)
    requires
        setting.lockfile is None,
        !setting.prefer_upgrade,
        installed::entry_of(setting.installed, name) == Some(e),
        table::has(setting.available, name),
        available::versions_of(setting.available, name).contains(kept),
        kept.version == e.version,
        kept.revision == e.revision,
        choice::meets(constraint, kept.version),
    ensures
        choice::chosen(setting, name, constraint) matches Ok(m) && m.version == e.version
            && m.revision == e.revision,
{
    let versions = available::versions_of(setting.available, name);
    let fitting = choice::candidates(versions, constraint);
    lists::lemma_filter(versions, choice::meeting(constraint));
    assert(fitting.contains(kept));
    let same = choice::same_release(fitting, e);
    lists::lemma_filter(fitting, choice::released_as(e));
    assert(same.contains(kept));
    assert(same.contains(same[0]));
}

} // verus!
