//! What the choice of a manifest comes to, stated of the positions in the index, in the lockfile and
//! among the installed packages.

use std::cmp::Ordering;

use vstd::prelude::*;

use crate::dep_constraint;
use crate::dep_constraint::DepConstraintView;
use crate::failure::{FailureKind, ResolverFailureView};
use crate::lists;
use crate::manifest::ManifestView;
use crate::resolver::available;
use crate::resolver::available::Index;
use crate::resolver::choice;
use crate::resolver::choice::Setting;
use crate::resolver::laws;
use crate::resolver::plan::{LockfileInputView, LockfileMode};
use crate::storage::installed;
use crate::storage::installed::InstalledEntryView;
use crate::storage::lockfile;
use crate::storage::lockfile::LockfilePackageView;
use crate::table;
use crate::text::Text;
use crate::version;

verus! {

/// Whether the lockfile lets the manifest be chosen: in strict mode some entry has its name, its rank
/// and its revision; in flexible mode no entry with its name is newer.
pub open spec fn let_in(lockfile: LockfileInputView, m: ManifestView) -> bool {
    match lockfile {
        None => true,
        Some((packages, LockfileMode::Strict)) => exists|i: int|
            0 <= i < packages.len() && (#[trigger] packages[i]).name == m.name
                && version::version_order(packages[i].version, m.version) == Ordering::Equal
                && packages[i].revision == m.revision,
        Some((packages, LockfileMode::Flexible(_))) => forall|i: int|
            0 <= i < packages.len() && (#[trigger] packages[i]).name == m.name
                ==> version::version_order(packages[i].version, m.version) != Ordering::Greater,
    }
}

/// Whether the version suits: there is no constraint, or the version satisfies it.
pub open spec fn suits(constraint: Option<DepConstraintView>, v: Text) -> bool {
    constraint matches Some(c) ==> dep_constraint::satisfied(c, v)
}

/// Whether the manifest may be chosen: it suits, and the lockfile lets it in.
pub open spec fn eligible(
    setting: Setting,
    constraint: Option<DepConstraintView>,
    m: ManifestView,
) -> bool {
    suits(constraint, m.version) && let_in(setting.lockfile, m)
}

/// Whether entry `e` is the first installed one with the name.
pub open spec fn first_installed(
    installed: Seq<InstalledEntryView>,
    name: Text,
    e: int,
) -> bool {
    &&& 0 <= e < installed.len()
    &&& installed[e].name == name
    &&& forall|i: int| 0 <= i < e ==> (#[trigger] installed[i]).name != name
}

/// Whether the manifest has the version and the revision of the installed package.
pub open spec fn as_installed(
    installed: Seq<InstalledEntryView>,
    name: Text,
    m: ManifestView,
) -> bool {
    exists|e: int|
        first_installed(installed, name, e) && #[trigger] installed[e].version == m.version
            && installed[e].revision == m.revision
}

/// The first entry with a name is the entry of that name.
pub proof fn lemma_first_installed(installed: Seq<InstalledEntryView>, name: Text, e: int)
    requires
        first_installed(installed, name, e),
    ensures
        installed::entry_of(installed, name) == Some(installed[e]),
    decreases installed.len(),
{
    if e > 0 {
        assert(installed[0].name != name);
        let d = installed.drop_first();
        assert(d[e - 1] == installed[e]);
        assert forall|i: int| 0 <= i < e - 1 implies (#[trigger] d[i]).name != name by {
            assert(d[i] == installed[i + 1]);
        }
        lemma_first_installed(d, name, e - 1);
    }
}

/// The entry of a name is the first with that name, and there is none only where no entry has the
/// name.
pub proof fn lemma_entry_is_first(installed: Seq<InstalledEntryView>, name: Text)
    ensures
        match installed::entry_of(installed, name) {
            Some(entry) => exists|e: int|
                first_installed(installed, name, e) && #[trigger] installed[e] == entry,
            None => forall|i: int|
                0 <= i < installed.len() ==> (#[trigger] installed[i]).name != name,
        },
    decreases installed.len(),
{
    if installed.len() > 0 {
        if installed[0].name == name {
            assert(first_installed(installed, name, 0) && installed[0] == installed[0]);
        } else {
            let d = installed.drop_first();
            lemma_entry_is_first(d, name);
            match installed::entry_of(d, name) {
                Some(entry) => {
                    let e = choose|e: int| first_installed(d, name, e) && #[trigger] d[e] == entry;
                    assert(installed[e + 1] == d[e]);
                    assert forall|i: int| 0 <= i < e + 1 implies (#[trigger] installed[i]).name
                        != name by {
                        if i > 0 {
                            assert(d[i - 1] == installed[i]);
                        }
                    }
                    assert(first_installed(installed, name, e + 1));
                },
                None => {
                    assert forall|i: int| 0 <= i < installed.len() implies (
                    #[trigger] installed[i]).name != name by {
                        if i > 0 {
                            assert(d[i - 1] == installed[i]);
                        }
                    }
                },
            }
        }
    }
}

/// The lockfile entries of a name are those with that name.
proof fn lemma_locked_for(packages: Seq<LockfilePackageView>, name: Text)
    ensures
        forall|p: LockfilePackageView| #[trigger]
            lockfile::locked_for(packages, name).contains(p) == (packages.contains(p) && p.name
                == name),
{
    lists::lemma_filter(packages, lockfile::named(name));
}

proof fn lemma_release_locked(packages: Seq<LockfilePackageView>, m: ManifestView)
    ensures
        choice::release_locked(lockfile::locked_for(packages, m.name), m) == (exists|i: int|
            0 <= i < packages.len() && (#[trigger] packages[i]).name == m.name
                && version::version_order(packages[i].version, m.version) == Ordering::Equal
                && packages[i].revision == m.revision),
{
    let locked = lockfile::locked_for(packages, m.name);
    lemma_locked_for(packages, m.name);
    assert forall|p: LockfilePackageView| true implies (version::version_eq(
        p.version,
        m.version,
    ) == (#[trigger] version::version_order(p.version, m.version) == Ordering::Equal)) by {
        version::lemma_version_trichotomy(p.version, m.version);
    }
    if choice::release_locked(locked, m) {
        let i = choose|i: int|
            0 <= i < locked.len() && version::version_eq((#[trigger] locked[i]).version, m.version)
                && locked[i].revision == m.revision;
        assert(locked.contains(locked[i]));
        let k = choose|k: int| 0 <= k < packages.len() && packages[k] == locked[i];
        assert(packages[k].name == m.name);
        assert(version::version_order(packages[k].version, m.version) == Ordering::Equal);
    }
    if exists|i: int|
        0 <= i < packages.len() && (#[trigger] packages[i]).name == m.name
            && version::version_order(packages[i].version, m.version) == Ordering::Equal
            && packages[i].revision == m.revision {
        let i = choose|i: int|
            0 <= i < packages.len() && (#[trigger] packages[i]).name == m.name
                && version::version_order(packages[i].version, m.version) == Ordering::Equal
                && packages[i].revision == m.revision;
        assert(packages.contains(packages[i]));
        assert(locked.contains(packages[i]));
        let k = choose|k: int| 0 <= k < locked.len() && locked[k] == packages[i];
        assert(version::version_eq(locked[k].version, m.version));
    }
}

proof fn lemma_not_below(packages: Seq<LockfilePackageView>, m: ManifestView)
    ensures
        choice::not_below(lockfile::locked_for(packages, m.name), m) == (forall|i: int|
            0 <= i < packages.len() && (#[trigger] packages[i]).name == m.name
                ==> version::version_order(packages[i].version, m.version) != Ordering::Greater),
{
    let locked = lockfile::locked_for(packages, m.name);
    lemma_locked_for(packages, m.name);
    assert forall|p: LockfilePackageView| true implies (version::version_le(
        p.version,
        m.version,
    ) == (#[trigger] version::version_order(p.version, m.version) != Ordering::Greater)) by {
        version::lemma_version_trichotomy(p.version, m.version);
    }
    if choice::not_below(locked, m) {
        assert forall|i: int|
            0 <= i < packages.len() && (#[trigger] packages[i]).name
                == m.name implies version::version_order(packages[i].version, m.version)
            != Ordering::Greater by {
            assert(packages.contains(packages[i]));
            assert(locked.contains(packages[i]));
            let k = choose|k: int| 0 <= k < locked.len() && locked[k] == packages[i];
            assert(version::version_le(locked[k].version, m.version));
        }
    } else {
        let i = choose|i: int|
            0 <= i < locked.len() && !version::version_le(
                (#[trigger] locked[i]).version,
                m.version,
            );
        assert(locked.contains(locked[i]));
        let k = choose|k: int| 0 <= k < packages.len() && packages[k] == locked[i];
        assert(packages[k].name == m.name);
        assert(version::version_order(packages[k].version, m.version) == Ordering::Greater);
    }
}

/// What of the versions of a package may be chosen.
spec fn pool(
    setting: Setting,
    name: Text,
    constraint: Option<DepConstraintView>,
    versions: Seq<ManifestView>,
) -> Seq<ManifestView> {
    let fitting = choice::candidates(versions, constraint);
    match setting.lockfile {
        Some((packages, LockfileMode::Strict)) => choice::locked_releases(
            fitting,
            lockfile::locked_for(packages, name),
        ),
        Some((packages, LockfileMode::Flexible(_))) if lockfile::locked_for(
            packages,
            name,
        ).len() > 0 => choice::not_older(fitting, lockfile::locked_for(packages, name)),
        _ => fitting,
    }
}

/// The pool holds what is eligible, in ascending order, and something is chosen from it where it
/// holds anything.
proof fn lemma_pool(
    setting: Setting,
    name: Text,
    constraint: Option<DepConstraintView>,
    k: int,
)
    requires
        available::well_indexed(setting.available),
        0 <= k < setting.available.len(),
        setting.available[k].0 == name,
    ensures
        ({
            let versions = setting.available[k].1;
            let list = pool(setting, name, constraint, versions);
            &&& available::versions_ascend(list)
            &&& forall|m: ManifestView| #[trigger]
                list.contains(m) == (versions.contains(m) && eligible(setting, constraint, m))
            &&& choice::chosen(setting, name, constraint) is Ok == (list.len() > 0)
            &&& list.len() > 0 ==> choice::chosen(setting, name, constraint) == Ok::<
                _,
                ResolverFailureView,
            >(choice::preferred(setting, name, list))
        }),
{
    let t = setting.available;
    let versions = t[k].1;
    table::lemma_get(t, k);
    let fitting = choice::candidates(versions, constraint);
    let list = pool(setting, name, constraint, versions);
    lists::lemma_filter(versions, choice::meeting(constraint));
    laws::lemma_filter_ascends(versions, choice::meeting(constraint));
    assert forall|m: ManifestView| #[trigger] versions.contains(m) implies m.name == name by {
        let j = choose|j: int| 0 <= j < versions.len() && versions[j] == m;
        assert(t[k].1[j].name == t[k].0);
    }
    match setting.lockfile {
        Some((packages, LockfileMode::Strict)) => {
            let locked = lockfile::locked_for(packages, name);
            lists::lemma_filter(fitting, choice::release_in(locked));
            laws::lemma_filter_ascends(fitting, choice::release_in(locked));
            assert forall|m: ManifestView| #[trigger] list.contains(m) == (versions.contains(m)
                && eligible(setting, constraint, m)) by {
                if versions.contains(m) {
                    lemma_release_locked(packages, m);
                }
                assert(fitting.contains(m) == (versions.contains(m) && choice::meets(
                    constraint,
                    m.version,
                )));
            }
            if locked.len() == 0 && list.len() > 0 {
                assert(list.contains(list[0]));
                assert(choice::release_locked(locked, list[0]));
            }
        },
        Some((packages, LockfileMode::Flexible(_))) => {
            let locked = lockfile::locked_for(packages, name);
            lists::lemma_filter(fitting, choice::not_below_any(locked));
            laws::lemma_filter_ascends(fitting, choice::not_below_any(locked));
            assert forall|m: ManifestView| #[trigger] list.contains(m) == (versions.contains(m)
                && eligible(setting, constraint, m)) by {
                if versions.contains(m) {
                    lemma_not_below(packages, m);
                    assert(locked.len() == 0 ==> choice::not_below(locked, m));
                }
                assert(fitting.contains(m) == (versions.contains(m) && choice::meets(
                    constraint,
                    m.version,
                )));
            }
        },
        None => {},
    }
}

/// With any lockfile mode: of the versions of a package that suit and that the lockfile lets in, one
/// that is not older than any other is chosen. The exception is the installed release, which is kept
/// where it is among them and no upgrade is preferred.
pub proof fn lemma_newest_chosen(
    setting: Setting,
    name: Text,
    constraint: Option<DepConstraintView>,
    k: int,
    j: int,
)
    requires
        available::well_indexed(setting.available),
        0 <= k < setting.available.len(),
        setting.available[k].0 == name,
        0 <= j < setting.available[k].1.len(),
        eligible(setting, constraint, setting.available[k].1[j]),
    ensures
        choice::chosen(setting, name, constraint) matches Ok(m) && {
            &&& m.name == name
            &&& eligible(setting, constraint, m)
            &&& (exists|n: int|
                0 <= n < setting.available[k].1.len() && #[trigger] setting.available[k].1[n] == m)
            &&& setting.prefer_upgrade || !as_installed(setting.installed, name, m)
                ==> version::version_order(m.version, setting.available[k].1[j].version)
                != Ordering::Less
            &&& (forall|i: int|
                0 <= i < setting.installed.len() ==> (#[trigger] setting.installed[i]).name != name)
                ==> version::version_order(m.version, setting.available[k].1[j].version)
                != Ordering::Less
        },
{
    let versions = setting.available[k].1;
    let other = versions[j];
    let list = pool(setting, name, constraint, versions);
    lemma_pool(setting, name, constraint, k);
    assert(versions.contains(other));
    assert(list.contains(other));
    laws::lemma_preferred(setting, name, list);
    let m = choice::preferred(setting, name, list);
    assert(versions.contains(m));
    let n = choose|n: int| 0 <= n < versions.len() && versions[n] == m;
    assert(setting.available[k].1[n] == m);
    assert(setting.available[k].1[n].name == setting.available[k].0);
    lemma_entry_is_first(setting.installed, name);
    if let Some(e) = installed::entry_of(setting.installed, name) {
        let at = choose|at: int|
            first_installed(setting.installed, name, at) && #[trigger] setting.installed[at] == e;
        let same = choice::same_release(list, e);
        lists::lemma_filter(list, choice::released_as(e));
        if !setting.prefer_upgrade && same.len() > 0 {
            assert(same.contains(same[0]));
            assert(first_installed(setting.installed, name, at) && setting.installed[at].version
                == m.version);
            assert(as_installed(setting.installed, name, m));
        }
    }
    let i = choose|i: int| 0 <= i < list.len() && list[i] == other;
    let last = list[list.len() - 1];
    version::lemma_version_trichotomy(last.version, other.version);
    version::lemma_version_lt_irreflexive(last.version);
    if i < list.len() - 1 {
        assert(version::version_le(list[i].version, list[list.len() - 1].version));
    }
}

/// With any lockfile mode: unless an upgrade is preferred, an installed package keeps its version and
/// revision where that release is available, suits, and the lockfile lets it in.
pub proof fn lemma_release_kept(
    setting: Setting,
    name: Text,
    constraint: Option<DepConstraintView>,
    k: int,
    j: int,
)
    requires
        available::well_indexed(setting.available),
        0 <= k < setting.available.len(),
        setting.available[k].0 == name,
        0 <= j < setting.available[k].1.len(),
        eligible(setting, constraint, setting.available[k].1[j]),
        as_installed(setting.installed, name, setting.available[k].1[j]),
        !setting.prefer_upgrade,
    ensures
        choice::chosen(setting, name, constraint) matches Ok(m) && m.version
            == setting.available[k].1[j].version && m.revision
            == setting.available[k].1[j].revision,
{
    let versions = setting.available[k].1;
    let kept = versions[j];
    let list = pool(setting, name, constraint, versions);
    lemma_pool(setting, name, constraint, k);
    assert(versions.contains(kept));
    assert(list.contains(kept));
    let e = choose|e: int|
        first_installed(setting.installed, name, e) && #[trigger] setting.installed[e].version
            == kept.version && setting.installed[e].revision == kept.revision;
    lemma_first_installed(setting.installed, name, e);
    let same = choice::same_release(list, setting.installed[e]);
    lists::lemma_filter(list, choice::released_as(setting.installed[e]));
    assert(same.contains(kept));
    assert(same.contains(same[0]));
}

/// A package of which no version suits and is let in cannot be had. The reason names the package: it
/// is that the package is not in the lockfile exactly where the lockfile is strict and has no entry
/// with the name.
pub proof fn lemma_no_version(
    setting: Setting,
    name: Text,
    constraint: Option<DepConstraintView>,
    k: int,
)
    requires
        available::well_indexed(setting.available),
        0 <= k < setting.available.len(),
        setting.available[k].0 == name,
        forall|j: int|
            0 <= j < setting.available[k].1.len() ==> !eligible(
                setting,
                constraint,
                #[trigger] setting.available[k].1[j],
            ),
    ensures
        choice::chosen(setting, name, constraint) matches Err(f) && {
            &&& f.package == Some(name)
            &&& f.kind == FailureKind::NotInLockfile || f.kind == FailureKind::Unsatisfiable
            &&& (f.kind == FailureKind::NotInLockfile) == (setting.lockfile matches Some((
                packages,
                LockfileMode::Strict,
            )) && forall|i: int| 0 <= i < packages.len() ==> (#[trigger] packages[i]).name != name)
        },
{
    let versions = setting.available[k].1;
    let list = pool(setting, name, constraint, versions);
    lemma_pool(setting, name, constraint, k);
    table::lemma_get(setting.available, k);
    if list.len() > 0 {
        assert(list.contains(list[0]));
        let j = choose|j: int| 0 <= j < versions.len() && versions[j] == list[0];
        assert(!eligible(setting, constraint, setting.available[k].1[j]));
    }
    if let Some((packages, LockfileMode::Strict)) = setting.lockfile {
        let locked = lockfile::locked_for(packages, name);
        lemma_locked_for(packages, name);
        if locked.len() > 0 {
            assert(locked.contains(locked[0]));
            let i = choose|i: int| 0 <= i < packages.len() && packages[i] == locked[0];
            assert(packages[i].name == name);
        } else {
            assert forall|i: int| 0 <= i < packages.len() implies (#[trigger] packages[i]).name
                != name by {
                assert(packages.contains(packages[i]));
                assert(!locked.contains(packages[i]));
            }
        }
    }
}

/// Filtering twice is filtering by both.
proof fn lemma_twice<A>(list: Seq<A>, p: spec_fn(A) -> bool, q: spec_fn(A) -> bool)
    ensures
        list.filter(p).filter(q) == list.filter(|x: A| p(x) && q(x)),
    decreases list.len(),
{
    reveal(Seq::filter);
    if list.len() > 0 {
        let d = list.drop_last();
        let last = list.last();
        lemma_twice(d, p, q);
        if p(last) {
            assert(list.filter(p).drop_last() =~= d.filter(p));
        }
    }
}

/// What passes a filter last stands behind everything else that passes it.
proof fn lemma_last_passing<A>(list: Seq<A>, p: spec_fn(A) -> bool) -> (n: int)
    requires
        list.filter(p).len() > 0,
    ensures
        0 <= n < list.len(),
        list.filter(p).last() == list[n],
        p(list[n]),
        forall|i: int| n < i < list.len() ==> !p(#[trigger] list[i]),
    decreases list.len(),
{
    reveal(Seq::filter);
    let d = list.drop_last();
    if p(list.last()) {
        list.len() - 1
    } else {
        let n = lemma_last_passing(d, p);
        assert forall|i: int| n < i < list.len() implies !p(#[trigger] list[i]) by {
            if i < d.len() {
                assert(d[i] == list[i]);
            }
        }
        assert(d[n] == list[n]);
        n
    }
}

/// Whether the manifest at `(k, j)` of the index provides the name and passes.
spec fn provider_at(
    t: Index,
    name: Text,
    p: spec_fn(ManifestView) -> bool,
    k: int,
    j: int,
) -> bool {
    &&& 0 <= k < t.len()
    &&& 0 <= j < t[k].1.len()
    &&& t[k].1[j].provides.contains(name)
    &&& p(t[k].1[j])
}

/// The last provider that passes stands behind all others in the index.
proof fn lemma_last_provider(t: Index, name: Text, p: spec_fn(ManifestView) -> bool) -> (r: (
    int,
    int,
))
    ensures
        ({
            let list = available::providers(t, name).filter(p);
            if list.len() > 0 {
                &&& provider_at(t, name, p, r.0, r.1)
                &&& list.last() == t[r.0].1[r.1]
                &&& forall|k: int, j: int| #[trigger]
                    provider_at(t, name, p, k, j) ==> k < r.0 || (k == r.0 && j <= r.1)
            } else {
                forall|k: int, j: int| !(#[trigger] provider_at(t, name, p, k, j))
            }
        }),
    decreases t.len(),
{
    reveal(Seq::filter);
    if t.len() == 0 {
        (0, 0)
    } else {
        let d = t.drop_last();
        let front = available::providers(d, name);
        let own = available::providing(t.last().1, name);
        let n = t.len() - 1;
        let both = |m: ManifestView| available::provides(name)(m) && p(m);
        let list = available::providers(t, name).filter(p);
        Seq::filter_distributes_over_add(front, own, p);
        lemma_twice(t.last().1, available::provides(name), p);
        assert(list == front.filter(p) + t.last().1.filter(both));
        let r = lemma_last_provider(d, name, p);
        assert forall|k: int, j: int| #[trigger] provider_at(t, name, p, k, j) implies k == n
            || provider_at(d, name, p, k, j) by {
            if k < n {
                assert(d[k] == t[k]);
            }
        }
        lists::lemma_filter(t.last().1, both);
        if t.last().1.filter(both).len() > 0 {
            let j = lemma_last_passing(t.last().1, both);
            assert(list.last() == t.last().1.filter(both).last());
            assert forall|a: int, b: int| #[trigger] provider_at(t, name, p, a, b) implies a < n
                || (a == n && b <= j) by {
                if a == n && b > j {
                    assert(!both(t.last().1[b]));
                }
            }
            (n, j)
        } else {
            assert(list =~= front.filter(p));
            assert forall|k: int, j: int| #[trigger] provider_at(t, name, p, k, j) implies k
                != n by {
                if k == n {
                    assert(t.last().1.contains(t.last().1[j]));
                    assert(both(t.last().1[j]));
                    assert(t.last().1.filter(both).contains(t.last().1[j]));
                }
            }
            if front.filter(p).len() > 0 {
                assert(d[r.0] == t[r.0]);
            }
            r
        }
    }
}

/// Where the index has no package of the name, what provides the name stands in for it: of the
/// manifests that provide it, suit, and are let in, the last in the order of the index is chosen, and
/// something is chosen wherever there is one.
pub proof fn lemma_provider_chosen(
    setting: Setting,
    name: Text,
    constraint: Option<DepConstraintView>,
    k: int,
    j: int,
)
    requires
        available::well_indexed(setting.available),
        forall|i: int|
            0 <= i < setting.available.len() ==> (#[trigger] setting.available[i]).0 != name,
        0 <= k < setting.available.len(),
        0 <= j < setting.available[k].1.len(),
        setting.available[k].1[j].provides.contains(name),
        eligible(setting, constraint, setting.available[k].1[j]),
    ensures
        choice::chosen(setting, name, constraint) matches Ok(m) && {
            &&& m.provides.contains(name)
            &&& eligible(setting, constraint, m)
            &&& exists|a: int, b: int|
                0 <= a < setting.available.len() && 0 <= b < setting.available[a].1.len()
                    && #[trigger] setting.available[a].1[b] == m && (k < a || (k == a && j <= b))
        },
{
    let t = setting.available;
    let p = choice::allowed_by(setting.lockfile);
    let q = choice::meeting(constraint);
    let both = |m: ManifestView| p(m) && q(m);
    lemma_twice(available::providers(t, name), p, q);
    let list = available::providers(t, name).filter(both);
    assert forall|m: ManifestView| both(m) == eligible(setting, constraint, m) by {
        lemma_allowed(setting.lockfile, m);
    }
    let r = lemma_last_provider(t, name, both);
    assert(both(t[k].1[j]));
    assert(provider_at(t, name, both, k, j));
    assert(both(t[r.0].1[r.1]));
    assert(table::get(t, name) is None);
    assert(list == choice::candidates(
        choice::allowed_providers(available::providers(t, name), setting.lockfile),
        constraint,
    ));
    lists::lemma_filter(available::providers(t, name), p);
    lists::lemma_filter(
        choice::allowed_providers(available::providers(t, name), setting.lockfile),
        q,
    );
    assert(t[r.0].1[r.1] == list.last());
}

pub(crate) proof fn lemma_allowed(lockfile: LockfileInputView, m: ManifestView)
    ensures
        choice::allowed_by(lockfile)(m) == let_in(lockfile, m),
{
    match lockfile {
        Some((packages, LockfileMode::Strict)) => {
            lemma_release_locked(packages, m);
            let locked = lockfile::locked_for(packages, m.name);
            lemma_locked_for(packages, m.name);
            assert forall|p: LockfilePackageView| true implies (version::version_eq(
                p.version,
                m.version,
            ) == (#[trigger] version::version_order(p.version, m.version) == Ordering::Equal)) by {
                version::lemma_version_trichotomy(p.version, m.version);
            }
            if choice::is_locked(packages, m) {
                let i = choose|i: int|
                    0 <= i < packages.len() && choice::locks(#[trigger] packages[i], m);
                assert(packages[i].name == m.name);
                assert(version::version_order(packages[i].version, m.version) == Ordering::Equal);
            }
            if let_in(lockfile, m) {
                let i = choose|i: int|
                    0 <= i < packages.len() && (#[trigger] packages[i]).name == m.name
                        && version::version_order(packages[i].version, m.version)
                        == Ordering::Equal && packages[i].revision == m.revision;
                assert(choice::locks(packages[i], m));
            }
        },
        Some((packages, LockfileMode::Flexible(_))) => {
            lemma_not_below(packages, m);
        },
        None => {},
    }
}

/// A name that is no package and that nothing eligible provides cannot be had. The reason is that it
/// is not in the lockfile exactly where the lockfile is strict and lets in no provider of it.
pub proof fn lemma_no_provider(
    setting: Setting,
    name: Text,
    constraint: Option<DepConstraintView>,
)
    requires
        available::well_indexed(setting.available),
        forall|i: int|
            0 <= i < setting.available.len() ==> (#[trigger] setting.available[i]).0 != name,
        forall|k: int, j: int|
            0 <= k < setting.available.len() && 0 <= j < setting.available[k].1.len() && (
            #[trigger] setting.available[k].1[j]).provides.contains(name) ==> !eligible(
                setting,
                constraint,
                setting.available[k].1[j],
            ),
    ensures
        choice::chosen(setting, name, constraint) matches Err(f) && {
            &&& f.package == Some(name)
            &&& f.kind == FailureKind::NotInLockfile || f.kind == FailureKind::Unsatisfiable
            &&& (f.kind == FailureKind::NotInLockfile) == (setting.lockfile matches Some((
                packages,
                LockfileMode::Strict,
            )) && forall|k: int, j: int|
                0 <= k < setting.available.len() && 0 <= j < setting.available[k].1.len() && (
                #[trigger] setting.available[k].1[j]).provides.contains(name) ==> !let_in(
                    setting.lockfile,
                    setting.available[k].1[j],
                ))
        },
{
    let t = setting.available;
    let p = choice::allowed_by(setting.lockfile);
    let q = choice::meeting(constraint);
    let both = |m: ManifestView| p(m) && q(m);
    lemma_twice(available::providers(t, name), p, q);
    let r = lemma_last_provider(t, name, both);
    let s = lemma_last_provider(t, name, p);
    assert(table::get(t, name) is None);
    if available::providers(t, name).filter(both).len() > 0 {
        let m = t[r.0].1[r.1];
        lemma_allowed(setting.lockfile, m);
        assert(both(m));
        assert(eligible(setting, constraint, m));
    }
    if available::providers(t, name).filter(p).len() > 0 {
        let m = t[s.0].1[s.1];
        lemma_allowed(setting.lockfile, m);
    } else {
        assert forall|k: int, j: int|
            0 <= k < t.len() && 0 <= j < t[k].1.len() && (
            #[trigger] t[k].1[j]).provides.contains(name) implies !let_in(
            setting.lockfile,
            t[k].1[j],
        ) by {
            lemma_allowed(setting.lockfile, t[k].1[j]);
            assert(!provider_at(t, name, p, k, j));
        }
    }
}

/// The failure of a package of which no version can be chosen tells the constraint as it is written
/// and the versions that were there: those of the lockfile entries of the package where these decided,
/// in the order of the lockfile, else all available ones in ascending order.
pub proof fn lemma_no_version_tells(
    setting: Setting,
    name: Text,
    constraint: Option<DepConstraintView>,
    k: int,
    f: ResolverFailureView,
)
    requires
        available::well_indexed(setting.available),
        0 <= k < setting.available.len(),
        setting.available[k].0 == name,
        choice::chosen(setting, name, constraint) == Err::<ManifestView, _>(f),
        f.kind == FailureKind::Unsatisfiable,
    ensures
        constraint is None ==> f.version_constraint is None,
        constraint matches Some(c) ==> f.version_constraint == Some(
            dep_constraint::constraint_text(c),
        ),
        f.available_versions is Some,
        setting.lockfile is None ==> f.available_versions->0.len()
            == setting.available[k].1.len() && forall|j: int|
            0 <= j < setting.available[k].1.len() ==> #[trigger] f.available_versions->0[j]
                == setting.available[k].1[j].version,
        setting.lockfile matches Some((packages, _)) ==> forall|v: Text| #[trigger]
            f.available_versions->0.contains(v) ==> (exists|i: int|
                0 <= i < packages.len() && (#[trigger] packages[i]).name == name
                    && packages[i].version == v) || (exists|j: int|
                0 <= j < setting.available[k].1.len() && (
                #[trigger] setting.available[k].1[j]).version == v),
{
    table::lemma_get(setting.available, k);
    let versions = setting.available[k].1;
    if let Some((packages, _)) = setting.lockfile {
        let locked = lockfile::locked_for(packages, name);
        lemma_locked_for(packages, name);
        let told = f.available_versions->0;
        assert forall|v: Text| #[trigger] told.contains(v) implies (exists|i: int|
            0 <= i < packages.len() && (#[trigger] packages[i]).name == name
                && packages[i].version == v) || (exists|j: int|
            0 <= j < versions.len() && (#[trigger] versions[j]).version == v) by {
            let i = choose|i: int| 0 <= i < told.len() && told[i] == v;
            if told == choice::locked_versions(locked) {
                assert(locked.contains(locked[i]));
                let p = choose|p: int| 0 <= p < packages.len() && packages[p] == locked[i];
                assert(packages[p].name == name && packages[p].version == v);
            } else {
                assert(told == choice::manifest_versions(versions));
                assert(versions[i].version == v);
            }
        }
    }
}

} // verus!
