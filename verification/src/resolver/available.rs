//! Index of available packages by package name.

use vstd::prelude::*;
use vstd::string::*;

use crate::lists;
use crate::manifest::{Manifest, ManifestView};
use crate::package_name::PackageName;
use crate::table;
use crate::text;
use crate::text::Text;
use crate::version;

verus! {

/// The available packages: for each name, in ascending order, its versions in ascending order.
pub type Index = Seq<(Text, Seq<ManifestView>)>;

/// Index of available packages by package name. All versions per name, sorted for deterministic
/// "latest" (max by Version).
#[derive(Debug)]
pub struct AvailablePackages {
    by_name: Vec<(PackageName, Vec<Manifest>)>,
}

impl View for AvailablePackages {
    type V = Index;

    closed spec fn view(&self) -> Index {
        self.by_name.deep_view()
    }
}

impl DeepView for AvailablePackages {
    type V = Index;

    open spec fn deep_view(&self) -> Index {
        self@
    }
}

impl Clone for AvailablePackages {
    fn clone(&self) -> (r: Self)
        ensures
            r@ == self@,
    {
        proof {
            use_type_invariant(self);
        }
        AvailablePackages { by_name: clone_index(&self.by_name) }
    }
}

impl Default for AvailablePackages {
    fn default() -> (r: Self)
        ensures
            r@ == Seq::<(Text, Seq<ManifestView>)>::empty(),
    {
        let by_name: Vec<(PackageName, Vec<Manifest>)> = Vec::new();
        assert(by_name.deep_view() =~= Seq::empty());
        AvailablePackages { by_name }
    }
}

fn clone_index(t: &Vec<(PackageName, Vec<Manifest>)>) -> (r: Vec<(PackageName, Vec<Manifest>)>)
    ensures
        r.deep_view() == t.deep_view(),
{
    let mut out: Vec<(PackageName, Vec<Manifest>)> = Vec::new();
    let mut i: usize = 0;
    while i < t.len()
        invariant
            i <= t@.len(),
            out@.len() == i,
            forall|j: int| 0 <= j < i ==> (#[trigger] out@[j]).deep_view() == t@[j].deep_view(),
        decreases t@.len() - i,
    {
        out.push((t[i].0.clone(), t[i].1.clone()));
        i += 1;
    }
    assert(out.deep_view() =~= t.deep_view());
    out
}

/// Whether the manifests stand in ascending order of their versions, each version text once.
pub open spec fn versions_ascend(list: Seq<ManifestView>) -> bool {
    forall|i: int, j: int|
        #![trigger list[i], list[j]]
        0 <= i < j < list.len() ==> version::version_le(list[i].version, list[j].version)
            && list[i].version != list[j].version
}

/// An index as it is built: sorted by name, and under each name the versions of that package.
pub open spec fn well_indexed(t: Index) -> bool {
    &&& table::sorted(t)
    &&& forall|i: int|
        0 <= i < t.len() ==> (#[trigger] t[i]).1.len() > 0 && versions_ascend(t[i].1)
    &&& forall|i: int, j: int|
        0 <= i < t.len() && 0 <= j < t[i].1.len() ==> (#[trigger] t[i].1[j]).name == t[i].0
}

/// The list with `m` behind everything that is not newer.
pub open spec fn placed(list: Seq<ManifestView>, m: ManifestView) -> Seq<ManifestView>
    decreases list.len(),
{
    if list.len() == 0 {
        seq![m]
    } else if version::version_lt(m.version, list.last().version) {
        placed(list.drop_last(), m).push(list.last())
    } else {
        list.push(m)
    }
}

/// Whether a manifest has another version than the given one.
pub open spec fn other_version(v: Text) -> spec_fn(ManifestView) -> bool {
    |x: ManifestView| x.version != v
}

/// The list without the manifest of the given version.
pub open spec fn without_version(list: Seq<ManifestView>, v: Text) -> Seq<ManifestView> {
    list.filter(other_version(v))
}

/// All versions of a package, in ascending order; none if the name is unknown.
pub open spec fn versions_of(t: Index, name: Text) -> Seq<ManifestView> {
    match table::get(t, name) {
        Some(list) => list,
        None => Seq::empty(),
    }
}

/// The index with `m` in place of what it had of the same name and version.
pub open spec fn with_manifest(t: Index, m: ManifestView) -> Index {
    table::put(t, m.name, placed(without_version(versions_of(t, m.name), m.version), m))
}

/// The index of the packages; of packages with the same name and version the last stays.
pub open spec fn indexed(packages: Seq<ManifestView>) -> Index
    decreases packages.len(),
{
    if packages.len() == 0 {
        Seq::empty()
    } else {
        with_manifest(indexed(packages.drop_last()), packages.last())
    }
}

/// Whether a manifest provides the virtual name.
pub open spec fn provides(virtual_name: Text) -> spec_fn(ManifestView) -> bool {
    |m: ManifestView| m.provides.contains(virtual_name)
}

/// The manifests in the list that provide the virtual name.
pub open spec fn providing(list: Seq<ManifestView>, virtual_name: Text) -> Seq<ManifestView> {
    list.filter(provides(virtual_name))
}

/// All packages that provide the virtual name, in the order of the index.
pub open spec fn providers(t: Index, virtual_name: Text) -> Seq<ManifestView>
    decreases t.len(),
{
    if t.len() == 0 {
        Seq::empty()
    } else {
        providers(t.drop_last(), virtual_name) + providing(t.last().1, virtual_name)
    }
}

/// The names of the index, in ascending order.
pub open spec fn names_of(t: Index) -> Seq<Text> {
    t.map_values(|e: (Text, Seq<ManifestView>)| e.0)
}

/// Puts `m` into the list in place of the manifest of the same version.
fn add_version(list: &Vec<Manifest>, m: Manifest) -> (r: Vec<Manifest>)
    ensures
        r.deep_view() == placed(without_version(list.deep_view(), m@.version), m@),
{
    let ghost all = list.deep_view();
    let mut out: Vec<Manifest> = Vec::new();
    let mut i: usize = 0;
    proof {
        reveal(Seq::filter);
    }
    assert(out.deep_view() =~= without_version(all.take(0), m@.version));
    while i < list.len()
        invariant
            i <= list@.len(),
            all == list.deep_view(),
            out.deep_view() == without_version(all.take(i as int), m@.version),
        decreases list@.len() - i,
    {
        let ghost before = out.deep_view();
        assert(all[i as int] == list@[i as int]@);
        assert(all.take(i + 1).drop_last() == all.take(i as int));
        proof {
            reveal(Seq::filter);
        }
        if !text::same_text(list[i].version.as_str(), m.version.as_str()) {
            out.push(list[i].clone());
            assert(out.deep_view() =~= before.push(all[i as int]));
        }
        i += 1;
    }
    assert(all.take(all.len() as int) == all);
    let ghost s = out.deep_view();
    let ghost mv = m@;
    let mut k: usize = out.len();
    assert(s.take(k as int) == s);
    assert(placed(s, mv) =~= placed(s.take(k as int), mv) + s.skip(k as int));
    while k > 0 && m.version.precedes(&out[k - 1].version)
        invariant
            k <= out@.len(),
            out.deep_view() == s,
            mv == m@,
            placed(s, mv) == placed(s.take(k as int), mv) + s.skip(k as int),
        decreases k,
    {
        assert(s[k - 1] == out@[k - 1]@);
        assert(s.take(k as int).drop_last() == s.take(k - 1));
        assert(placed(s, mv) =~= placed(s.take(k - 1), mv) + s.skip(k - 1));
        k -= 1;
    }
    if k > 0 {
        assert(s[k - 1] == out@[k - 1]@);
    }
    out.insert(k, m);
    assert(out.deep_view() =~= s.insert(k as int, mv));
    assert(placed(s, mv) =~= s.insert(k as int, mv));
    out
}

impl AvailablePackages {
    #[verifier::type_invariant]
    spec fn well_formed(self) -> bool {
        well_indexed(self.by_name.deep_view())
    }

    /// Builds an index from a list of packages. Caller must ensure packages are validated.
    /// Multiple versions of the same package are stored; duplicates (same name+version) are
    /// coalesced (last wins) for simplicity.
    pub fn from_packages(packages: Vec<Manifest>) -> (r: Self)
        ensures
            r@ == indexed(packages.deep_view()),
    {
        let ghost all = packages.deep_view();
        let mut by_name: Vec<(PackageName, Vec<Manifest>)> = Vec::new();
        let mut i: usize = 0;
        assert(by_name.deep_view() =~= Seq::empty());
        while i < packages.len()
            invariant
                i <= packages@.len(),
                all == packages.deep_view(),
                by_name.deep_view() == indexed(all.take(i as int)),
            decreases packages@.len() - i,
        {
            assert(all[i as int] == packages@[i as int]@);
            assert(all.take(i + 1).drop_last() == all.take(i as int));
            proof {
                lemma_indexed(all.take(i as int));
            }
            let m = packages[i].clone();
            let name = m.name.clone();
            let list = match table::lookup(&by_name, &name) {
                Some(list) => add_version(list, m),
                None => {
                    let empty: Vec<Manifest> = Vec::new();
                    assert(empty.deep_view() =~= Seq::empty());
                    add_version(&empty, m)
                },
            };
            table::set(&mut by_name, name, list);
            i += 1;
        }
        assert(all.take(all.len() as int) == all);
        proof {
            lemma_indexed(all);
        }
        AvailablePackages { by_name }
    }

    /// Returns all known versions for a package name, in ascending version order.
    pub fn get_versions(&self, name: &PackageName) -> (r: Option<&Vec<Manifest>>)
        ensures
            r.deep_view() == table::get(self@, name@),
            well_indexed(self@),
    {
        proof {
            use_type_invariant(self);
        }
        table::lookup(&self.by_name, name)
    }

    /// Returns the package with the highest version for the given name.
    pub fn get_latest(&self, name: &PackageName) -> (r: Option<&Manifest>)
        ensures
            r.deep_view() == if table::has(self@, name@) {
                Some(versions_of(self@, name@).last())
            } else {
                None
            },
    {
        proof {
            use_type_invariant(self);
        }
        match table::lookup(&self.by_name, name) {
            Some(list) => {
                proof {
                    let i = table::lemma_index(self@, name@);
                }
                Some(&list[list.len() - 1])
            },
            None => None,
        }
    }

    /// Returns true if there is a concrete package with this name.
    pub fn has_package(&self, name: &PackageName) -> (r: bool)
        ensures
            r == table::has(self@, name@),
    {
        table::contains_key(&self.by_name, name)
    }

    /// All package names, in ascending order.
    pub fn all_names(&self) -> (r: Vec<&PackageName>)
        ensures
            r.deep_view() == names_of(self@),
            well_indexed(self@),
    {
        proof {
            use_type_invariant(self);
        }
        let ghost all = self@;
        let mut out: Vec<&PackageName> = Vec::new();
        let mut i: usize = 0;
        while i < self.by_name.len()
            invariant
                i <= self.by_name@.len(),
                all == self.by_name.deep_view(),
                out@.len() == i,
                forall|j: int| 0 <= j < i ==> (#[trigger] out@[j])@ == all[j].0,
            decreases self.by_name@.len() - i,
        {
            assert(all[i as int].0 == self.by_name@[i as int].0@);
            out.push(&self.by_name[i].0);
            i += 1;
        }
        assert(out.deep_view() =~= names_of(all));
        out
    }

    /// Find all packages that provide the given virtual name.
    pub fn providers_of(&self, virtual_name: &str) -> (r: Vec<&Manifest>)
        ensures
            r.deep_view() == providers(self@, virtual_name@),
            well_indexed(self@),
    {
        proof {
            use_type_invariant(self);
        }
        let ghost all = self@;
        let mut out: Vec<&Manifest> = Vec::new();
        let mut i: usize = 0;
        assert(out.deep_view() =~= Seq::empty());
        while i < self.by_name.len()
            invariant
                i <= self.by_name@.len(),
                all == self.by_name.deep_view(),
                out.deep_view() == providers(all.take(i as int), virtual_name@),
            decreases self.by_name@.len() - i,
        {
            let ghost list = all[i as int].1;
            let ghost before = out.deep_view();
            assert(all[i as int].1 == self.by_name@[i as int].1.deep_view());
            assert(all.take(i + 1).drop_last() == all.take(i as int));
            let versions = &self.by_name[i].1;
            let mut j: usize = 0;
            proof {
                reveal(Seq::filter);
            }
            assert(out.deep_view() =~= before + providing(list.take(0), virtual_name@));
            while j < versions.len()
                invariant
                    j <= versions@.len(),
                    list == versions.deep_view(),
                    out.deep_view() == before + providing(list.take(j as int), virtual_name@),
                decreases versions@.len() - j,
            {
                let ghost current = out.deep_view();
                assert(list[j as int] == versions@[j as int]@);
                assert(list.take(j + 1).drop_last() == list.take(j as int));
                proof {
                    reveal(Seq::filter);
                }
                if text::list_contains(&versions[j].provides, virtual_name) {
                    out.push(&versions[j]);
                    assert(out.deep_view() =~= current.push(list[j as int]));
                    assert(out.deep_view() =~= before + providing(
                        list.take(j + 1),
                        virtual_name@,
                    ));
                }
                j += 1;
            }
            assert(list.take(list.len() as int) == list);
            i += 1;
        }
        assert(all.take(all.len() as int) == all);
        out
    }
}

proof fn lemma_placed(list: Seq<ManifestView>, m: ManifestView)
    requires
        versions_ascend(list),
        forall|i: int| 0 <= i < list.len() ==> (#[trigger] list[i]).version != m.version,
    ensures
        versions_ascend(placed(list, m)),
        placed(list, m).len() == list.len() + 1,
        forall|x: ManifestView| #[trigger]
            placed(list, m).contains(x) == (x == m || list.contains(x)),
    decreases list.len(),
{
    let p = placed(list, m);
    if list.len() == 0 {
        assert(p[0] == m);
    } else {
        let d = list.drop_last();
        let last = list.last();
        assert(versions_ascend(d));
        lemma_placed(d, m);
        version::lemma_version_trichotomy(m.version, last.version);
        if version::version_lt(m.version, last.version) {
            let q = placed(d, m);
            assert(p =~= q.push(last));
            assert forall|i: int, j: int| 0 <= i < j < p.len() implies version::version_le(
                p[i].version,
                p[j].version,
            ) && p[i].version != p[j].version by {
                if j == p.len() - 1 {
                    assert(q.contains(q[i]));
                    if q[i] != m {
                        let k = choose|k: int| 0 <= k < d.len() && d[k] == q[i];
                        assert(list[k] == q[i]);
                    }
                } else {
                    assert(p[i] == q[i] && p[j] == q[j]);
                }
            }
            assert forall|x: ManifestView| #[trigger] p.contains(x) == (x == m || list.contains(
                x,
            )) by {
                lists::lemma_push_contains(q, last, x);
                lists::lemma_last_contains(list, x);
            }
        } else {
            assert forall|i: int, j: int| 0 <= i < j < p.len() implies version::version_le(
                p[i].version,
                p[j].version,
            ) && p[i].version != p[j].version by {
                if j == p.len() - 1 {
                    if i < list.len() - 1 {
                        lemma_le_transitive(list[i].version, last.version, m.version);
                    }
                } else {
                    assert(p[i] == list[i] && p[j] == list[j]);
                }
            }
            assert forall|x: ManifestView| #[trigger] p.contains(x) == (x == m || list.contains(
                x,
            )) by {
                lists::lemma_push_contains(list, m, x);
            }
        }
    }
}

proof fn lemma_le_transitive(a: Text, b: Text, c: Text)
    requires
        version::version_le(a, b),
        version::version_le(b, c),
    ensures
        version::version_le(a, c),
{
    if version::version_lt(a, b) && version::version_lt(b, c) {
        version::lemma_version_lt_transitive(a, b, c);
    }
}

proof fn lemma_without_version(list: Seq<ManifestView>, v: Text)
    requires
        versions_ascend(list),
    ensures
        versions_ascend(without_version(list, v)),
        forall|x: ManifestView| #[trigger]
            without_version(list, v).contains(x) == (list.contains(x) && x.version != v),
    decreases list.len(),
{
    reveal(Seq::filter);
    let w = without_version(list, v);
    if list.len() > 0 {
        let d = list.drop_last();
        let last = list.last();
        assert(versions_ascend(d));
        lemma_without_version(d, v);
        let wd = without_version(d, v);
        assert forall|x: ManifestView| #[trigger] w.contains(x) == (list.contains(x) && x.version
            != v) by {
            lists::lemma_last_contains(list, x);
            lists::lemma_push_contains(wd, last, x);
        }
        if last.version != v {
            assert(w == wd.push(last));
            assert forall|i: int, j: int| 0 <= i < j < w.len() implies version::version_le(
                w[i].version,
                w[j].version,
            ) && w[i].version != w[j].version by {
                if j == w.len() - 1 {
                    assert(w[i] == wd[i] && w[j] == list[list.len() - 1]);
                    assert(wd.contains(wd[i]));
                    assert(d.contains(wd[i]));
                    let k = choose|k: int| 0 <= k < d.len() && d[k] == wd[i];
                    assert(list[k] == wd[i]);
                    assert(version::version_le(list[k].version, list[list.len() - 1].version));
                } else {
                    assert(w[i] == wd[i] && w[j] == wd[j]);
                    assert(version::version_le(wd[i].version, wd[j].version));
                }
            }
        }
    }
}

/// The index that is built is well formed.
pub proof fn lemma_indexed(packages: Seq<ManifestView>)
    ensures
        well_indexed(indexed(packages)),
    decreases packages.len(),
{
    if packages.len() > 0 {
        lemma_indexed(packages.drop_last());
        lemma_with_manifest(indexed(packages.drop_last()), packages.last());
    }
}

proof fn lemma_versions_of(t: Index, name: Text)
    requires
        well_indexed(t),
    ensures
        versions_ascend(versions_of(t, name)),
        forall|j: int|
            0 <= j < versions_of(t, name).len() ==> (#[trigger] versions_of(t, name)[j]).name
                == name,
{
    if table::has(t, name) {
        let i = table::lemma_index(t, name);
        assert(versions_ascend(t[i].1));
        assert forall|j: int| 0 <= j < versions_of(t, name).len() implies (
        #[trigger] versions_of(t, name)[j]).name == name by {
            assert(t[i].1[j].name == t[i].0);
        }
    }
}

proof fn lemma_with_manifest(t: Index, m: ManifestView)
    requires
        well_indexed(t),
    ensures
        well_indexed(with_manifest(t, m)),
        versions_of(with_manifest(t, m), m.name) == placed(
            without_version(versions_of(t, m.name), m.version),
            m,
        ),
        forall|name: Text|
            name != m.name ==> #[trigger] versions_of(with_manifest(t, m), name) == versions_of(
                t,
                name,
            ),
{
    let old_list = versions_of(t, m.name);
    let kept = without_version(old_list, m.version);
    let list = placed(kept, m);
    let r = with_manifest(t, m);
    lemma_versions_of(t, m.name);
    lemma_without_version(old_list, m.version);
    assert forall|i: int| 0 <= i < kept.len() implies (#[trigger] kept[i]).version
        != m.version by {
        assert(kept.contains(kept[i]));
    }
    lemma_placed(kept, m);
    table::lemma_put(t, m.name, list);
    assert forall|i: int| 0 <= i < r.len() implies (#[trigger] r[i]).1.len() > 0
        && versions_ascend(r[i].1) by {
        table::lemma_get(r, i);
        if r[i].0 != m.name {
            assert(table::has(r, r[i].0));
            assert(table::has(t, r[i].0));
            let k = table::lemma_index(t, r[i].0);
        }
    }
    assert forall|i: int, j: int| 0 <= i < r.len() && 0 <= j < r[i].1.len() implies (
    #[trigger] r[i].1[j]).name == r[i].0 by {
        table::lemma_get(r, i);
        if r[i].0 != m.name {
            assert(table::has(r, r[i].0));
            assert(table::has(t, r[i].0));
            let k = table::lemma_index(t, r[i].0);
            assert(t[k].1[j].name == t[k].0);
        } else {
            assert(list.contains(list[j]));
            if list[j] != m {
                assert(kept.contains(list[j]));
                assert(old_list.contains(list[j]));
            }
        }
    }
}

/// The last package in the list with the given name and version.
pub open spec fn last_of(packages: Seq<ManifestView>, name: Text, v: Text) -> Option<ManifestView>
    decreases packages.len(),
{
    if packages.len() == 0 {
        None
    } else if packages.last().name == name && packages.last().version == v {
        Some(packages.last())
    } else {
        last_of(packages.drop_last(), name, v)
    }
}

/// The index holds a manifest exactly when it is the last in the list with its name and version.
pub proof fn lemma_index_holds_last(packages: Seq<ManifestView>, m: ManifestView)
    ensures
        versions_of(indexed(packages), m.name).contains(m) == (last_of(
            packages,
            m.name,
            m.version,
        ) == Some(m)),
    decreases packages.len(),
{
    if packages.len() > 0 {
        let t = indexed(packages.drop_last());
        let p = packages.last();
        lemma_indexed(packages.drop_last());
        lemma_with_manifest(t, p);
        lemma_index_holds_last(packages.drop_last(), m);
        if p.name == m.name {
            let old_list = versions_of(t, p.name);
            let kept = without_version(old_list, p.version);
            lemma_versions_of(t, p.name);
            lemma_without_version(old_list, p.version);
            assert forall|i: int| 0 <= i < kept.len() implies (#[trigger] kept[i]).version
                != p.version by {
                assert(kept.contains(kept[i]));
            }
            lemma_placed(kept, p);
        }
    }
}

/// The last package in the list with the given name whose version ranks equal to the given one.
pub open spec fn last_ranked(packages: Seq<ManifestView>, name: Text, v: Text) -> Option<
    ManifestView,
>
    decreases packages.len(),
{
    if packages.len() == 0 {
        None
    } else if packages.last().name == name && version::version_eq(packages.last().version, v) {
        Some(packages.last())
    } else {
        last_ranked(packages.drop_last(), name, v)
    }
}

/// The latest of a package is one of its versions, none of which is newer, and of the packages in
/// the list whose versions rank equal to it, it is the last. There is one if the list has a package
/// of that name.
pub proof fn lemma_latest(packages: Seq<ManifestView>, name: Text)
    ensures
        table::has(indexed(packages), name) == exists|i: int|
            0 <= i < packages.len() && (#[trigger] packages[i]).name == name,
        table::has(indexed(packages), name) ==> ({
            let list = versions_of(indexed(packages), name);
            &&& list.len() > 0
            &&& forall|i: int|
                0 <= i < list.len() ==> version::version_le(
                    (#[trigger] list[i]).version,
                    list.last().version,
                )
            &&& last_ranked(packages, name, list.last().version) == Some(list.last())
        }),
    decreases packages.len(),
{
    lemma_indexed(packages);
    let r = indexed(packages);
    let list = versions_of(r, name);
    lemma_versions_of(r, name);
    if table::has(r, name) {
        let k = table::lemma_index(r, name);
        assert(r[k].1.len() > 0);
        assert forall|i: int| 0 <= i < list.len() implies version::version_le(
            (#[trigger] list[i]).version,
            list.last().version,
        ) by {
            assert(list.last() == list[list.len() - 1]);
        }
    }
    if packages.len() > 0 {
        let front = packages.drop_last();
        let p = packages.last();
        let t = indexed(front);
        lemma_indexed(front);
        lemma_with_manifest(t, p);
        lemma_latest(front, name);
        let kept = without_version(versions_of(t, p.name), p.version);
        table::lemma_put(t, p.name, placed(kept, p));
        assert(table::has(r, name) == (name == p.name || table::has(t, name)));
        if exists|i: int| 0 <= i < front.len() && (#[trigger] front[i]).name == name {
            let i = choose|i: int| 0 <= i < front.len() && (#[trigger] front[i]).name == name;
            assert(packages[i].name == name);
        }
        if exists|i: int| 0 <= i < packages.len() && (#[trigger] packages[i]).name == name {
            let i = choose|i: int| 0 <= i < packages.len() && (#[trigger] packages[i]).name == name;
            if i < front.len() {
                assert(front[i].name == name);
            }
        }
        assert(packages[packages.len() - 1] == p);
        if p.name == name {
            let old_list = versions_of(t, name);
            lemma_versions_of(t, name);
            if kept.len() > 0 && version::version_lt(p.version, kept.last().version) {
                let newest = kept.last();
                lemma_without_version(old_list, p.version);
                assert(kept.contains(newest));
                assert(old_list.contains(newest));
                let j = choose|j: int| 0 <= j < old_list.len() && old_list[j] == newest;
                let n = old_list.len() - 1;
                if old_list[n].version == p.version {
                    assert(version::version_le(old_list[j].version, old_list[n].version));
                    version::lemma_version_trichotomy(p.version, newest.version);
                    version::lemma_version_lt_irreflexive(p.version);
                    if version::version_lt(newest.version, p.version) {
                        version::lemma_version_lt_transitive(
                            p.version,
                            newest.version,
                            p.version,
                        );
                    }
                }
                reveal(Seq::filter);
                assert(kept.last() == old_list.last());
                assert(table::has(t, name));
                version::lemma_version_trichotomy(p.version, newest.version);
                assert(list.last() == newest);
            }
        } else {
            assert(list == versions_of(t, name));
        }
    }
}

} // verus!
