//! What a request comes to, stated of the positions in the index and among the installed packages.

use vstd::prelude::*;
use vstd::string::*;

use crate::failure::FailureKind;
use crate::lists;
use crate::manifest::ManifestView;
use crate::resolver::available;
use crate::resolver::available::Index;
use crate::resolver::choice_laws;
use crate::resolver::plan::{LockfileInputView, PlanAction, RequestView};
use crate::resolver::request;
use crate::storage::installed;
use crate::storage::installed::InstalledEntryView;
use crate::table;
use crate::text::Text;

verus! {

/// Whether some constraint of the manifest is on the name: one of its dependencies, or one in any of
/// its alternatives.
pub open spec fn needs(m: ManifestView, name: Text) -> bool {
    ||| exists|d: int| 0 <= d < m.depends.len() && (#[trigger] m.depends[d]).name == name
    ||| exists|g: int, d: int|
        0 <= g < m.depends_any.len() && 0 <= d < m.depends_any[g].len() && (
        #[trigger] m.depends_any[g][d]).name == name
}

/// Whether the manifest at `(k, j)` of the index is that of the installed version of the package.
pub open spec fn manifest_of(t: Index, e: InstalledEntryView, k: int, j: int) -> bool {
    &&& 0 <= k < t.len()
    &&& t[k].0 == e.name
    &&& 0 <= j < t[k].1.len()
    &&& t[k].1[j].version == e.version
}

/// Whether the installed package needs the name by its manifest of the installed version.
pub open spec fn held_by(t: Index, e: InstalledEntryView, name: Text) -> bool {
    exists|k: int, j: int| #[trigger] manifest_of(t, e, k, j) && needs(t[k].1[j], name)
}

proof fn lemma_depends_on(m: ManifestView, name: Text)
    ensures
        request::depends_on(m, name) == needs(m, name),
{
    if request::depends_on(m, name) {
        if request::mentions(m.depends, name) {
            let d = choose|d: int| 0 <= d < m.depends.len() && (#[trigger] m.depends[d]).name
                == name;
            assert(m.depends[d].name == name);
        } else {
            let g = choose|g: int|
                0 <= g < m.depends_any.len() && request::mentions(#[trigger] m.depends_any[g], name);
            let d = choose|d: int|
                0 <= d < m.depends_any[g].len() && (#[trigger] m.depends_any[g][d]).name == name;
            assert(m.depends_any[g][d].name == name);
        }
    }
    if needs(m, name) {
        if !(exists|d: int| 0 <= d < m.depends.len() && (#[trigger] m.depends[d]).name == name) {
            let (g, d) = choose|g: int, d: int|
                0 <= g < m.depends_any.len() && 0 <= d < m.depends_any[g].len() && (
                #[trigger] m.depends_any[g][d]).name == name;
            assert(request::mentions(m.depends_any[g], name));
        }
    }
}

proof fn lemma_dependent(t: Index, e: InstalledEntryView, name: Text)
    requires
        available::well_indexed(t),
    ensures
        request::dependent(t, name)(e) == held_by(t, e, name),
{
    let versions = available::versions_of(t, e.name);
    let known = versions.filter(request::has_version(e.version));
    lists::lemma_filter(versions, request::has_version(e.version));
    if known.len() > 0 {
        assert(known.contains(known[0]));
        let k = table::lemma_index(t, e.name);
        let j = choose|j: int| 0 <= j < versions.len() && versions[j] == known[0];
        assert(manifest_of(t, e, k, j));
        lemma_depends_on(known[0], name);
    }
    if held_by(t, e, name) {
        let (k, j) = choose|k: int, j: int| #[trigger]
            manifest_of(t, e, k, j) && needs(t[k].1[j], name);
        table::lemma_get(t, k);
        assert(versions.contains(versions[j]));
        assert(known.contains(versions[j]));
        let i = choose|i: int| 0 <= i < versions.len() && versions[i] == known[0];
        assert(versions.contains(known[0]));
        assert(available::versions_ascend(t[k].1));
        if i < j {
            assert(t[k].1[i].version != t[k].1[j].version);
        } else if j < i {
            assert(t[k].1[j].version != t[k].1[i].version);
        }
        lemma_depends_on(known[0], name);
    }
}

proof fn lemma_dependents(t: Index, installed: Seq<InstalledEntryView>, name: Text)
    requires
        available::well_indexed(t),
    ensures
        forall|x: Text| #[trigger]
            request::dependents(t, installed, name).contains(x) == (exists|e: int|
                0 <= e < installed.len() && (#[trigger] installed[e]).name == x && held_by(
                    t,
                    installed[e],
                    name,
                )),
        (request::dependents(t, installed, name).len() == 0) == (forall|e: int|
            0 <= e < installed.len() ==> !held_by(t, #[trigger] installed[e], name)),
{
    let list = installed.filter(request::dependent(t, name));
    let names = request::dependents(t, installed, name);
    lists::lemma_filter(installed, request::dependent(t, name));
    assert forall|x: Text| #[trigger] names.contains(x) == (exists|e: int|
        0 <= e < installed.len() && (#[trigger] installed[e]).name == x && held_by(
            t,
            installed[e],
            name,
        )) by {
        if names.contains(x) {
            let i = choose|i: int| 0 <= i < names.len() && names[i] == x;
            assert(list.contains(list[i]));
            let e = choose|e: int| 0 <= e < installed.len() && installed[e] == list[i];
            lemma_dependent(t, installed[e], name);
            assert(installed[e].name == x);
        }
        if exists|e: int|
            0 <= e < installed.len() && (#[trigger] installed[e]).name == x && held_by(
                t,
                installed[e],
                name,
            ) {
            let e = choose|e: int|
                0 <= e < installed.len() && (#[trigger] installed[e]).name == x && held_by(
                    t,
                    installed[e],
                    name,
                );
            lemma_dependent(t, installed[e], name);
            assert(installed.contains(installed[e]));
            assert(list.contains(installed[e]));
            let i = choose|i: int| 0 <= i < list.len() && list[i] == installed[e];
            assert(names[i] == x);
        }
    }
    if names.len() == 0 {
        assert forall|e: int| 0 <= e < installed.len() implies !held_by(
            t,
            #[trigger] installed[e],
            name,
        ) by {
            assert(!names.contains(installed[e].name));
        }
    } else {
        assert(names.contains(names[0]));
    }
}

/// If an unforced removal of a name has a plan, then no installed package whose manifest of the
/// installed version is available has a constraint on that name: not at any position of its
/// dependencies, and not at any position of any of its alternatives.
pub proof fn lemma_removal_breaks_nothing(
    name: Text,
    t: Index,
    installed: Seq<InstalledEntryView>,
    lockfile: LockfileInputView,
    system: Option<Seq<(Text, Text)>>,
    e: int,
    k: int,
    j: int,
)
    requires
        available::well_indexed(t),
        request::plan_for_request(
            RequestView::Remove { name, force: false },
            t,
            installed,
            lockfile,
            system,
        ) is Ok,
        0 <= e < installed.len(),
        manifest_of(t, installed[e], k, j),
    ensures
        forall|d: int|
            0 <= d < t[k].1[j].depends.len() ==> (#[trigger] t[k].1[j].depends[d]).name != name,
        forall|g: int, d: int|
            0 <= g < t[k].1[j].depends_any.len() && 0 <= d < t[k].1[j].depends_any[g].len() ==> (
            #[trigger] t[k].1[j].depends_any[g][d]).name != name,
{
    lemma_dependents(t, installed, name);
    assert(!held_by(t, installed[e], name));
    assert(!needs(t[k].1[j], name));
}

/// A removal of an installed package has a plan where it is forced, and where no installed package
/// needs it. The plan is the one step that removes the package at its installed version and revision.
/// Everything else is refused: a package that is not installed, and, naming exactly the packages that
/// need it, one that others need.
pub proof fn lemma_removal_request(
    name: Text,
    force: bool,
    t: Index,
    installed: Seq<InstalledEntryView>,
    lockfile: LockfileInputView,
    system: Option<Seq<(Text, Text)>>,
)
    requires
        available::well_indexed(t),
    ensures
        ({
            let r = request::plan_for_request(
                RequestView::Remove { name, force },
                t,
                installed,
                lockfile,
                system,
            );
            let present = exists|e: int|
                0 <= e < installed.len() && (#[trigger] installed[e]).name == name;
            let free = forall|e: int|
                0 <= e < installed.len() ==> !held_by(t, #[trigger] installed[e], name);
            &&& r is Ok == (present && (force || free))
            &&& r matches Ok(plan) ==> {
                &&& plan.steps.len() == 1
                &&& plan.satisfied_by_system.len() == 0
                &&& plan.steps[0].action == PlanAction::Remove
                &&& plan.steps[0].files.len() == 0
                &&& exists|e: int|
                    choice_laws::first_installed(installed, name, e) && (
                    #[trigger] installed[e]).name == plan.steps[0].name && installed[e].version
                        == plan.steps[0].version && installed[e].revision
                        == plan.steps[0].revision
            }
            &&& r matches Err(f) ==> {
                &&& f.package == Some(name)
                &&& !present ==> f.kind == FailureKind::Other
                &&& present ==> f.kind == FailureKind::HasDependents
                    && f.conflicting_packages is Some && forall|x: Text| #[trigger]
                    f.conflicting_packages->0.contains(x) == (exists|e: int|
                        0 <= e < installed.len() && (#[trigger] installed[e]).name == x
                            && held_by(t, installed[e], name))
            }
        }),
{
    choice_laws::lemma_entry_is_first(installed, name);
    lemma_dependents(t, installed, name);
    if let Some(entry) = installed::entry_of(installed, name) {
        let e = choose|e: int|
            choice_laws::first_installed(installed, name, e) && #[trigger] installed[e] == entry;
        assert(installed[e].name == name);
    }
}

} // verus!
