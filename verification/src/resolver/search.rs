//! The search for a selection of packages that meets a request.

use vstd::prelude::*;
use vstd::string::*;

use crate::dep_constraint;
use crate::dep_constraint::{DepConstraint, DepConstraintView};
use crate::failure;
use crate::failure::{FailureKind, ResolverFailure, ResolverFailureView};
use crate::lists;
use crate::manifest::{Manifest, ManifestView};
use crate::package_name::PackageName;
use crate::resolver::available;
use crate::resolver::available::Index;
use crate::resolver::choice;
use crate::resolver::choice::{Context, Setting};
use crate::table;
use crate::text::Text;
use crate::version::Version;

verus! {

/// What was selected so far: a manifest for each name, and the names that the system satisfies,
/// with the system's versions.
pub struct State {
    pub selected: Seq<(Text, ManifestView)>,
    pub satisfied: Seq<(Text, Text)>,
}

/// All names that a manifest can be chosen for: packages and what they provide.
pub open spec fn known_names(t: Index) -> Seq<Text>
    decreases t.len(),
{
    if t.len() == 0 {
        Seq::empty()
    } else {
        known_names(t.drop_last()) + seq![t.last().0] + provided_names(t.last().1)
    }
}

/// The names that the manifests provide.
pub open spec fn provided_names(list: Seq<ManifestView>) -> Seq<Text>
    decreases list.len(),
{
    if list.len() == 0 {
        Seq::empty()
    } else {
        provided_names(list.drop_last()) + list.last().provides
    }
}

/// Whether a name is not on the path.
pub open spec fn off_path(path: Seq<Text>) -> spec_fn(Text) -> bool {
    |n: Text| !path.contains(n)
}

/// How many of the known names are not on the path.
pub open spec fn room(t: Index, path: Seq<Text>) -> nat {
    known_names(t).filter(off_path(path)).len()
}

/// The version of the system's package that satisfies the dependency, if there is one.
pub open spec fn system_version(
    setting: Setting,
    name: Text,
    constraint: Option<DepConstraintView>,
) -> Option<Text> {
    match setting.system {
        None => None,
        Some(packages) => match table::get(packages, name) {
            None => None,
            Some(v) => match constraint {
                Some(c) if c.name != name || !dep_constraint::satisfied(c, v) => None,
                _ => Some(v),
            },
        },
    }
}

/// The state with the manifest selected for the name.
pub open spec fn with_selected(s: State, name: Text, m: ManifestView) -> State {
    State { selected: table::put(s.selected, name, m), ..s }
}

/// The state with the name left to the system, in the system's version.
pub open spec fn with_satisfied(s: State, name: Text, v: Text) -> State {
    if table::has(s.satisfied, name) {
        s
    } else {
        State { satisfied: table::put(s.satisfied, name, v), ..s }
    }
}

/// Whether `t` keeps all that `s` has.
pub open spec fn extends(s: State, t: State) -> bool {
    &&& forall|n: Text| #[trigger]
        table::has(s.selected, n) ==> table::get(t.selected, n) == table::get(s.selected, n)
    &&& forall|n: Text| #[trigger]
        table::has(s.satisfied, n) ==> table::get(t.satisfied, n) == table::get(s.satisfied, n)
}

/// What is kept of what was kept is kept.
pub proof fn lemma_extends_transitive(a: State, b: State, c: State)
    requires
        extends(a, b),
        extends(b, c),
    ensures
        extends(a, c),
{
    assert forall|n: Text| #[trigger] table::has(a.selected, n) implies table::get(c.selected, n)
        == table::get(a.selected, n) by {
        assert(table::get(b.selected, n) is Some);
        assert(table::has(b.selected, n));
    }
    assert forall|n: Text| #[trigger] table::has(a.satisfied, n) implies table::get(
        c.satisfied,
        n,
    ) == table::get(a.satisfied, n) by {
        assert(table::get(b.satisfied, n) is Some);
        assert(table::has(b.satisfied, n));
    }
}

/// The failure of a manifest none of whose alternatives can be satisfied.
pub open spec fn no_alternative(m: ManifestView) -> ResolverFailureView {
    failure::unsatisfiable(
        m.name,
        None,
        None,
        Some(seq!["no alternative in depends_any could be satisfied"@]),
    )
}

/// The state after `name` is resolved under the constraint, while the names on `path` are being
/// resolved. A name on the path is a cycle. A name that was selected stays as it is, if it meets
/// the constraint. A name that was not asked for explicitly is left to the system if that can
/// satisfy it. Else a manifest is chosen, and after it its dependencies are resolved.
pub open spec fn resolved(
    setting: Setting,
    name: Text,
    constraint: Option<DepConstraintView>,
    explicit: bool,
    path: Seq<Text>,
    s: State,
) -> Result<State, ResolverFailureView>
    decreases room(setting.available, path), 0nat, 0nat,
    via resolved_decreases
{
    if path.contains(name) {
        Err(failure::bare(FailureKind::Cycle, Some(name)))
    } else if let Some(m) = table::get(s.selected, name) {
        match constraint {
            Some(c) if c.name == name && !dep_constraint::satisfied(c, m.version) => Err(
                failure::unsatisfiable(
                    name,
                    Some(dep_constraint::constraint_text(c)),
                    Some(seq![m.version]),
                    None,
                ),
            ),
            _ => Ok(s),
        }
    } else if !explicit && system_version(setting, name, constraint) is Some {
        Ok(with_satisfied(s, name, system_version(setting, name, constraint)->0))
    } else {
        match choice::chosen(setting, name, constraint) {
            Err(e) => Err(e),
            Ok(m) => match resolved_all(
                setting,
                m.depends,
                path.push(name),
                with_selected(s, name, m),
            ) {
                Err(e) => Err(e),
                Ok(t) => if m.depends_any.len() == 0 {
                    Ok(t)
                } else {
                    match resolved_any(setting, m.depends_any, path.push(name), t) {
                        Some(u) => Ok(u),
                        None => Err(no_alternative(m)),
                    }
                },
            },
        }
    }
}

/// The state after all the dependencies are resolved in turn.
pub open spec fn resolved_all(
    setting: Setting,
    deps: Seq<DepConstraintView>,
    path: Seq<Text>,
    s: State,
) -> Result<State, ResolverFailureView>
    decreases room(setting.available, path), 1nat, deps.len(),
{
    if deps.len() == 0 {
        Ok(s)
    } else {
        match resolved_all(setting, deps.drop_last(), path, s) {
            Err(e) => Err(e),
            Ok(t) => resolved(setting, deps.last().name, Some(deps.last()), false, path, t),
        }
    }
}

/// The state after all constraints of an alternative are resolved in turn. What was selected
/// before needs no resolving if it meets the constraint.
pub open spec fn resolved_group(
    setting: Setting,
    group: Seq<DepConstraintView>,
    path: Seq<Text>,
    s: State,
) -> Option<State>
    decreases room(setting.available, path), 1nat, group.len(),
{
    if group.len() == 0 {
        Some(s)
    } else {
        match resolved_group(setting, group.drop_last(), path, s) {
            None => None,
            Some(t) => match table::get(t.selected, group.last().name) {
                Some(m) => if dep_constraint::satisfied(group.last(), m.version) {
                    Some(t)
                } else {
                    None
                },
                None => match resolved(
                    setting,
                    group.last().name,
                    Some(group.last()),
                    false,
                    path,
                    t,
                ) {
                    Ok(u) => Some(u),
                    Err(_) => None,
                },
            },
        }
    }
}

/// The state after the first alternative that can be satisfied is resolved.
pub open spec fn resolved_any(
    setting: Setting,
    groups: Seq<Seq<DepConstraintView>>,
    path: Seq<Text>,
    s: State,
) -> Option<State>
    decreases room(setting.available, path), 2nat, groups.len(),
{
    if groups.len() == 0 {
        None
    } else {
        match resolved_any(setting, groups.drop_last(), path, s) {
            Some(t) => Some(t),
            None => resolved_group(setting, groups.last(), path, s),
        }
    }
}

#[via_fn]
proof fn resolved_decreases(
    setting: Setting,
    name: Text,
    constraint: Option<DepConstraintView>,
    explicit: bool,
    path: Seq<Text>,
    s: State,
) {
    if !path.contains(name) {
        if let Ok(m) = choice::chosen(setting, name, constraint) {
            lemma_chosen_known(setting, name, constraint);
            lemma_room(setting.available, path, name);
        }
    }
}

/// The names that the manifests provide are exactly those that one of them provides.
proof fn lemma_provided(list: Seq<ManifestView>, name: Text)
    ensures
        provided_names(list).contains(name) == exists|m: ManifestView| #[trigger]
            list.contains(m) && m.provides.contains(name),
    decreases list.len(),
{
    if list.len() > 0 {
        let d = list.drop_last();
        lemma_provided(d, name);
        lists::lemma_concat_contains(provided_names(d), list.last().provides, name);
        assert(list.contains(list.last()));
        if exists|m: ManifestView| #[trigger] d.contains(m) && m.provides.contains(name) {
            let m = choose|m: ManifestView| #[trigger] d.contains(m) && m.provides.contains(name);
            lists::lemma_last_contains(list, m);
            assert(list.contains(m));
        }
        if exists|m: ManifestView| #[trigger] list.contains(m) && m.provides.contains(name) {
            let m = choose|m: ManifestView| #[trigger]
                list.contains(m) && m.provides.contains(name);
            lists::lemma_last_contains(list, m);
        }
    }
}

proof fn lemma_known(t: Index, i: int, name: Text)
    requires
        0 <= i < t.len(),
        t[i].0 == name || provided_names(t[i].1).contains(name),
    ensures
        known_names(t).contains(name),
    decreases t.len(),
{
    let front = known_names(t.drop_last());
    lists::lemma_concat_contains(front + seq![t.last().0], provided_names(t.last().1), name);
    lists::lemma_concat_contains(front, seq![t.last().0], name);
    assert(seq![t.last().0][0] == t.last().0);
    if i < t.len() - 1 {
        lemma_known(t.drop_last(), i, name);
    }
}

proof fn lemma_providers_known(t: Index, name: Text, m: ManifestView)
    requires
        available::providers(t, name).contains(m),
    ensures
        known_names(t).contains(name),
    decreases t.len(),
{
    let d = t.drop_last();
    let list = t.last().1;
    lists::lemma_concat_contains(
        available::providers(d, name),
        available::providing(list, name),
        m,
    );
    lists::lemma_filter(list, available::provides(name));
    if available::providing(list, name).contains(m) {
        lemma_provided(list, name);
        assert(list.contains(m));
        lemma_known(t, t.len() - 1, name);
    } else {
        lemma_providers_known(d, name, m);
        let front = known_names(d);
        lists::lemma_concat_contains(front + seq![t.last().0], provided_names(list), name);
        lists::lemma_concat_contains(front, seq![t.last().0], name);
    }
}

/// Where a manifest is chosen, the name is known.
pub proof fn lemma_chosen_known(
    setting: Setting,
    name: Text,
    constraint: Option<DepConstraintView>,
)
    requires
        choice::chosen(setting, name, constraint) is Ok,
    ensures
        known_names(setting.available).contains(name),
{
    let t = setting.available;
    match table::get(t, name) {
        Some(_) => {
            let i = table::lemma_index(t, name);
            lemma_known(t, i, name);
        },
        None => {
            let all = available::providers(t, name);
            let allowed = choice::allowed_providers(all, setting.lockfile);
            let fitting = choice::candidates(allowed, constraint);
            lists::lemma_filter(allowed, choice::meeting(constraint));
            lists::lemma_filter(all, choice::allowed_by(setting.lockfile));
            assert(fitting.contains(fitting.last()));
            assert(allowed.contains(fitting.last()));
            lemma_providers_known(t, name, fitting.last());
        },
    }
}

/// The path leaves less room with each known name that is added.
pub proof fn lemma_room(t: Index, path: Seq<Text>, name: Text)
    requires
        known_names(t).contains(name),
        !path.contains(name),
    ensures
        room(t, path.push(name)) < room(t, path),
{
    let longer = path.push(name);
    assert forall|n: Text| #[trigger] off_path(longer)(n) implies off_path(path)(n) by {
        lists::lemma_push_contains(path, name, n);
    }
    lists::lemma_push_contains(path, name, name);
    assert(known_names(t).contains(name) && off_path(path)(name) && !off_path(longer)(name));
    lists::lemma_filter_shrinks(known_names(t), off_path(path), off_path(longer));
}

/// What was selected so far.
pub struct Selection<'a> {
    pub selected: Vec<(PackageName, &'a Manifest)>,
    pub satisfied: Vec<(PackageName, Version)>,
}

impl<'a> DeepView for Selection<'a> {
    type V = State;

    open spec fn deep_view(&self) -> State {
        State { selected: self.selected.deep_view(), satisfied: self.satisfied.deep_view() }
    }
}

impl<'a> View for Selection<'a> {
    type V = State;

    open spec fn view(&self) -> State {
        self.deep_view()
    }
}

/// Whether both tables of the state are sorted.
pub open spec fn ordered(s: State) -> bool {
    table::sorted(s.selected) && table::sorted(s.satisfied)
}

/// The state before anything is selected.
pub open spec fn nothing() -> State {
    State { selected: Seq::empty(), satisfied: Seq::empty() }
}

impl<'a> Selection<'a> {
    /// A selection of nothing.
    pub fn new() -> (r: Self)
        ensures
            r@ == nothing(),
            ordered(r@),
    {
        let r = Selection { selected: Vec::new(), satisfied: Vec::new() };
        assert(r.selected.deep_view() =~= Seq::empty());
        assert(r.satisfied.deep_view() =~= Seq::empty());
        r
    }

    /// A copy of the selection.
    pub fn copied(&self) -> (r: Self)
        ensures
            r@ == self@,
    {
        let mut selected: Vec<(PackageName, &'a Manifest)> = Vec::new();
        let mut i: usize = 0;
        while i < self.selected.len()
            invariant
                i <= self.selected@.len(),
                selected@.len() == i,
                forall|j: int|
                    0 <= j < i ==> (#[trigger] selected@[j]).deep_view()
                        == self.selected@[j].deep_view(),
            decreases self.selected@.len() - i,
        {
            selected.push((self.selected[i].0.clone(), self.selected[i].1));
            i += 1;
        }
        let mut satisfied: Vec<(PackageName, Version)> = Vec::new();
        let mut k: usize = 0;
        while k < self.satisfied.len()
            invariant
                k <= self.satisfied@.len(),
                satisfied@.len() == k,
                forall|j: int|
                    0 <= j < k ==> (#[trigger] satisfied@[j]).deep_view()
                        == self.satisfied@[j].deep_view(),
            decreases self.satisfied@.len() - k,
        {
            satisfied.push((self.satisfied[k].0.clone(), self.satisfied[k].1.clone()));
            k += 1;
        }
        assert(selected.deep_view() =~= self.selected.deep_view());
        assert(satisfied.deep_view() =~= self.satisfied.deep_view());
        Selection { selected, satisfied }
    }
}

/// Whether the name is on the path.
pub fn on_path(path: &Vec<PackageName>, name: &PackageName) -> (r: bool)
    ensures
        r == path.deep_view().contains(name@),
{
    let mut i: usize = 0;
    while i < path.len()
        invariant
            i <= path@.len(),
            forall|j: int| 0 <= j < i ==> path.deep_view()[j] != name@,
        decreases path@.len() - i,
    {
        if path[i].same(name) {
            assert(path.deep_view()[i as int] == name@);
            return true;
        }
        i += 1;
    }
    false
}

/// The version of the system's package that satisfies the dependency, if there is one.
fn find_in_system<'a>(
    ctx: Context<'a>,
    name: &PackageName,
    constraint: Option<&DepConstraint>,
) -> (r: Option<Version>)
    ensures
        r.deep_view() == system_version(ctx@, name@, constraint.deep_view()),
{
    let packages = match ctx.system {
        Some(packages) => packages,
        None => {
            return None;
        },
    };
    match packages.get(name) {
        None => None,
        Some(v) => match constraint {
            Some(c) => {
                if !c.name.same(name) || !c.satisfies(&v) {
                    None
                } else {
                    Some(v)
                }
            },
            None => Some(v),
        },
    }
}

/// Resolve a single dependency: by name (and optional version constraint). If the name is a
/// virtual (no concrete package), look up providers.
/// When the name is not explicit and system is Some, prefer satisfying from system before sic.
pub fn resolve_one<'a>(
    ctx: Context<'a>,
    name: &PackageName,
    constraint: Option<&DepConstraint>,
    explicit: bool,
    path: &Vec<PackageName>,
    state: &mut Selection<'a>,
) -> (r: Result<(), ResolverFailure>)
    requires
        ordered(old(state)@),
    ensures
        ordered(final(state)@),
        extends(old(state)@, final(state)@),
        match r {
            Ok(()) => resolved(
                ctx@,
                name@,
                constraint.deep_view(),
                explicit,
                path.deep_view(),
                old(state)@,
            ) == Ok::<State, ResolverFailureView>(final(state)@),
            Err(e) => resolved(
                ctx@,
                name@,
                constraint.deep_view(),
                explicit,
                path.deep_view(),
                old(state)@,
            ) == Err::<State, ResolverFailureView>(e@),
        },
    decreases room(ctx@.available, path.deep_view()), 0nat, 0nat,
{
    if on_path(path, name) {
        return Err(ResolverFailure::cycle(name.as_str()));
    }
    if let Some(m) = table::lookup(&state.selected, name) {
        if let Some(c) = constraint {
            if c.name.same(name) && !c.satisfies(&m.version) {
                let versions = vec![m.version.clone()];
                assert(versions.deep_view() =~= seq![m@.version]);
                return Err(choice::unmet(name, constraint, versions, None));
            }
        }
        return Ok(());
    }
    if !explicit {
        if let Some(v) = find_in_system(ctx, name, constraint) {
            if !table::contains_key(&state.satisfied, name) {
                proof {
                    table::lemma_put(state@.satisfied, name@, v@);
                }
                table::set(&mut state.satisfied, name.clone(), v);
            }
            return Ok(());
        }
    }
    let m = match choice::choose_manifest(ctx, name, constraint) {
        Ok(m) => m,
        Err(e) => {
            return Err(e);
        },
    };
    let mut inner: Vec<PackageName> = path.clone();
    inner.push(name.clone());
    proof {
        assert(inner.deep_view() =~= path.deep_view().push(name@));
        lemma_chosen_known(ctx@, name@, constraint.deep_view());
        lemma_room(ctx@.available, path.deep_view(), name@);
    }
    proof {
        table::lemma_put(state@.selected, name@, m@);
    }
    table::set(&mut state.selected, name.clone(), m);
    let ghost begun = state@;
    assert(begun == with_selected(old(state)@, name@, m@));
    assert(extends(old(state)@, begun));
    let resolved_depends = resolve_depends(ctx, &m.depends, &inner, state);
    let ghost between = state@;
    proof {
        lemma_extends_transitive(old(state)@, begun, between);
    }
    match resolved_depends {
        Ok(()) => {},
        Err(e) => {
            return Err(e);
        },
    }
    if m.depends_any.len() == 0 {
        return Ok(());
    }
    let found = resolve_alternatives(ctx, &m.depends_any, &inner, state);
    proof {
        lemma_extends_transitive(old(state)@, between, state@);
    }
    if !found {
        return Err(unsatisfied_alternatives(m));
    }
    Ok(())
}

/// The failure of a manifest none of whose alternatives can be satisfied.
pub fn unsatisfied_alternatives(m: &Manifest) -> (r: ResolverFailure)
    ensures
        r@ == no_alternative(m@),
{
    let reasons = vec!["no alternative in depends_any could be satisfied".to_owned()];
    assert(reasons.deep_view() =~= seq!["no alternative in depends_any could be satisfied"@]);
    ResolverFailure::unsatisfiable(m.name.as_str(), None, None, Some(reasons))
}

/// Resolve the dependencies in turn.
fn resolve_depends<'a>(
    ctx: Context<'a>,
    deps: &Vec<DepConstraint>,
    path: &Vec<PackageName>,
    state: &mut Selection<'a>,
) -> (r: Result<(), ResolverFailure>)
    requires
        ordered(old(state)@),
    ensures
        ordered(final(state)@),
        extends(old(state)@, final(state)@),
        match r {
            Ok(()) => resolved_all(ctx@, deps.deep_view(), path.deep_view(), old(state)@) == Ok::<
                State,
                ResolverFailureView,
            >(final(state)@),
            Err(e) => resolved_all(ctx@, deps.deep_view(), path.deep_view(), old(state)@) == Err::<
                State,
                ResolverFailureView,
            >(e@),
        },
    decreases room(ctx@.available, path.deep_view()), 1nat, 0nat,
{
    let ghost all = deps.deep_view();
    let ghost start = state@;
    let mut i: usize = 0;
    while i < deps.len()
        invariant
            i <= deps@.len(),
            all == deps.deep_view(),
            start == old(state)@,
            ordered(state@),
            extends(start, state@),
            resolved_all(ctx@, all.take(i as int), path.deep_view(), start) == Ok::<
                State,
                ResolverFailureView,
            >(state@),
        decreases deps@.len() - i,
    {
        let dep = &deps[i];
        assert(all[i as int] == dep@);
        assert(all.take(i + 1).drop_last() == all.take(i as int));
        let ghost before = state@;
        let one = resolve_one(ctx, &dep.name, Some(dep), false, path, state);
        proof {
            lemma_extends_transitive(start, before, state@);
        }
        match one {
            Ok(()) => {},
            Err(e) => {
                proof {
                    lemma_all_error(ctx@, all, path.deep_view(), start, i + 1);
                }
                return Err(e);
            },
        }
        i += 1;
    }
    assert(all.take(all.len() as int) == all);
    Ok(())
}

/// A dependency that cannot be resolved makes every list that continues it fail in the same way.
proof fn lemma_all_error(
    setting: Setting,
    deps: Seq<DepConstraintView>,
    path: Seq<Text>,
    s: State,
    n: int,
)
    requires
        0 <= n <= deps.len(),
        resolved_all(setting, deps.take(n), path, s) is Err,
    ensures
        resolved_all(setting, deps, path, s) == resolved_all(setting, deps.take(n), path, s),
    decreases deps.len(),
{
    if n == deps.len() {
        assert(deps.take(n) == deps);
    } else {
        assert(deps.drop_last().take(n) == deps.take(n));
        lemma_all_error(setting, deps.drop_last(), path, s, n);
    }
}

/// Resolve the constraints of an alternative in turn. Returns whether that was possible.
fn resolve_alternative<'a>(
    ctx: Context<'a>,
    group: &Vec<DepConstraint>,
    path: &Vec<PackageName>,
    state: &mut Selection<'a>,
) -> (r: bool)
    requires
        ordered(old(state)@),
    ensures
        ordered(final(state)@),
        extends(old(state)@, final(state)@),
        resolved_group(ctx@, group.deep_view(), path.deep_view(), old(state)@) == if r {
            Some(final(state)@)
        } else {
            None
        },
    decreases room(ctx@.available, path.deep_view()), 1nat, 0nat,
{
    let ghost all = group.deep_view();
    let ghost start = state@;
    let mut i: usize = 0;
    while i < group.len()
        invariant
            i <= group@.len(),
            all == group.deep_view(),
            start == old(state)@,
            ordered(state@),
            extends(start, state@),
            resolved_group(ctx@, all.take(i as int), path.deep_view(), start) == Some(state@),
        decreases group@.len() - i,
    {
        let c = &group[i];
        assert(all[i as int] == c@);
        assert(all.take(i + 1).drop_last() == all.take(i as int));
        let ghost before = state@;
        let met = match table::lookup(&state.selected, &c.name) {
            Some(m) => Some(c.satisfies(&m.version)),
            None => None,
        };
        let met = match met {
            Some(met) => met,
            None => match resolve_one(ctx, &c.name, Some(c), false, path, state) {
                Ok(()) => true,
                Err(_) => false,
            },
        };
        proof {
            lemma_extends_transitive(start, before, state@);
        }
        if !met {
            proof {
                lemma_group_error(ctx@, all, path.deep_view(), start, i + 1);
            }
            return false;
        }
        i += 1;
    }
    assert(all.take(all.len() as int) == all);
    true
}

/// A constraint that cannot be resolved makes every alternative that continues it fail.
proof fn lemma_group_error(
    setting: Setting,
    group: Seq<DepConstraintView>,
    path: Seq<Text>,
    s: State,
    n: int,
)
    requires
        0 <= n <= group.len(),
        resolved_group(setting, group.take(n), path, s) is None,
    ensures
        resolved_group(setting, group, path, s) is None,
    decreases group.len(),
{
    if n == group.len() {
        assert(group.take(n) == group);
    } else {
        assert(group.drop_last().take(n) == group.take(n));
        lemma_group_error(setting, group.drop_last(), path, s, n);
    }
}

/// Resolve the first alternative that can be satisfied (all constraints in that alternative). On
/// failure of an alternative, what was selected during it is rolled back. Returns whether there
/// was such an alternative.
fn resolve_alternatives<'a>(
    ctx: Context<'a>,
    groups: &Vec<Vec<DepConstraint>>,
    path: &Vec<PackageName>,
    state: &mut Selection<'a>,
) -> (r: bool)
    requires
        ordered(old(state)@),
    ensures
        ordered(final(state)@),
        extends(old(state)@, final(state)@),
        resolved_any(ctx@, groups.deep_view(), path.deep_view(), old(state)@) == if r {
            Some(final(state)@)
        } else {
            None
        },
    decreases room(ctx@.available, path.deep_view()), 2nat, 0nat,
{
    let ghost all = groups.deep_view();
    let ghost start = state@;
    let mut i: usize = 0;
    while i < groups.len()
        invariant
            i <= groups@.len(),
            all == groups.deep_view(),
            start == old(state)@,
            state@ == start,
            ordered(state@),
            resolved_any(ctx@, all.take(i as int), path.deep_view(), start) is None,
        decreases groups@.len() - i,
    {
        assert(all[i as int] == groups@[i as int].deep_view());
        assert(all.take(i + 1).drop_last() == all.take(i as int));
        let before = state.copied();
        if resolve_alternative(ctx, &groups[i], path, state) {
            proof {
                lemma_any_found(ctx@, all, path.deep_view(), start, i + 1);
            }
            return true;
        }
        *state = before;
        i += 1;
    }
    assert(all.take(all.len() as int) == all);
    false
}

/// The first alternative that can be satisfied is taken whatever follows it.
proof fn lemma_any_found(
    setting: Setting,
    groups: Seq<Seq<DepConstraintView>>,
    path: Seq<Text>,
    s: State,
    n: int,
)
    requires
        0 <= n <= groups.len(),
        resolved_any(setting, groups.take(n), path, s) is Some,
    ensures
        resolved_any(setting, groups, path, s) == resolved_any(setting, groups.take(n), path, s),
    decreases groups.len(),
{
    if n == groups.len() {
        assert(groups.take(n) == groups);
    } else {
        assert(groups.drop_last().take(n) == groups.take(n));
        lemma_any_found(setting, groups.drop_last(), path, s, n);
    }
}

} // verus!
