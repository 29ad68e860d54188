//! Circular dependencies among what is selected.

use vstd::prelude::*;

use crate::failure;
use crate::failure::{FailureKind, ResolverFailure, ResolverFailureView};
use crate::lists;
use crate::manifest::{Manifest, ManifestView};
use crate::package_name::PackageName;
use crate::resolver::order::Selected;
use crate::resolver::request;
use crate::resolver::search;
use crate::table;
use crate::text::Text;

verus! {

/// Whether what is selected for `a` depends on `b`, which is selected too.
pub open spec fn name_edge(selected: Selected, a: Text, b: Text) -> bool {
    table::get(selected, a) matches Some(m) && request::mentions(m.depends, b) && table::has(
        selected,
        b,
    )
}

/// Whether each name in the list depends on the next.
pub open spec fn name_chain(selected: Selected, p: Seq<Text>) -> bool {
    forall|i: int| 0 <= i < p.len() - 1 ==> name_edge(selected, #[trigger] p[i], p[i + 1])
}

/// Whether `a` depends on `b`, directly or through others.
pub open spec fn leads(selected: Selected, a: Text, b: Text) -> bool {
    exists|p: Seq<Text>| #[trigger]
        name_chain(selected, p) && p.len() >= 2 && p[0] == a && p.last() == b
}

/// Whether the name depends on itself, through others.
pub open spec fn circular(selected: Selected, name: Text) -> bool {
    leads(selected, name, name)
}

/// The first selected name, not before position `i`, that depends on itself.
pub open spec fn circle_from(selected: Selected, i: int) -> Option<Text>
    decreases selected.len() - i,
{
    if i >= selected.len() {
        None
    } else if circular(selected, selected[i].0) {
        Some(selected[i].0)
    } else {
        circle_from(selected, i + 1)
    }
}

/// The first selected name that depends on itself.
pub open spec fn first_circle(selected: Selected) -> Option<Text> {
    circle_from(selected, 0)
}

/// The failure of a name that depends on itself.
pub open spec fn circle_failure(name: Text) -> ResolverFailureView {
    failure::bare(FailureKind::Cycle, Some(name))
}

/// Whether all that the name depends on stands in the list.
spec fn followed(selected: Selected, name: Text, found: Seq<Text>) -> bool {
    forall|b: Text| #[trigger] name_edge(selected, name, b) ==> found.contains(b)
}

/// Whether the name leads to everything in the list.
spec fn found_from(selected: Selected, name: Text, found: Seq<Text>) -> bool {
    forall|i: int| 0 <= i < found.len() ==> leads(selected, name, #[trigger] found[i])
}

/// The selected names.
spec fn names(selected: Selected) -> Seq<Text> {
    selected.map_values(|e: (Text, ManifestView)| e.0)
}

/// How many of the selected names are not in the list.
spec fn unfound(selected: Selected, found: Seq<Text>) -> nat {
    names(selected).filter(search::off_path(found)).len()
}

proof fn lemma_unfound(selected: Selected, found: Seq<Text>, name: Text)
    requires
        table::has(selected, name),
        !found.contains(name),
    ensures
        unfound(selected, found.push(name)) < unfound(selected, found),
{
    let longer = found.push(name);
    let i = table::lemma_index(selected, name);
    assert(names(selected)[i] == name);
    assert forall|n: Text| #[trigger] search::off_path(longer)(n) implies search::off_path(
        found,
    )(n) by {
        lists::lemma_push_contains(found, name, n);
    }
    lists::lemma_push_contains(found, name, name);
    assert(names(selected).contains(name) && search::off_path(found)(name) && !search::off_path(
        longer,
    )(name));
    lists::lemma_filter_shrinks(names(selected), search::off_path(found), search::off_path(longer));
}

/// A dependency leads from a name to the next.
pub proof fn lemma_leads_one(selected: Selected, a: Text, b: Text)
    requires
        name_edge(selected, a, b),
    ensures
        leads(selected, a, b),
{
    let p = seq![a, b];
    assert(name_chain(selected, p)) by {
        assert forall|i: int| 0 <= i < p.len() - 1 implies name_edge(
            selected,
            #[trigger] p[i],
            p[i + 1],
        ) by {
            assert(i == 0);
        }
    }
}

/// What a name leads to leads on to its dependencies.
pub proof fn lemma_leads_on(selected: Selected, a: Text, b: Text, c: Text)
    requires
        leads(selected, a, b),
        name_edge(selected, b, c),
    ensures
        leads(selected, a, c),
{
    let p = choose|p: Seq<Text>| #[trigger]
        name_chain(selected, p) && p.len() >= 2 && p[0] == a && p.last() == b;
    let q = p.push(c);
    assert(name_chain(selected, q)) by {
        assert forall|i: int| 0 <= i < q.len() - 1 implies name_edge(
            selected,
            #[trigger] q[i],
            q[i + 1],
        ) by {
            assert(q[i] == p[i]);
            if i < p.len() - 1 {
                assert(q[i + 1] == p[i + 1]);
            }
        }
    }
    assert(q[0] == a && q.last() == c);
}

/// What depends on a name leads to all that the name leads to.
pub proof fn lemma_leads_before(selected: Selected, a: Text, b: Text, c: Text)
    requires
        name_edge(selected, a, b),
        leads(selected, b, c),
    ensures
        leads(selected, a, c),
{
    let p = choose|p: Seq<Text>| #[trigger]
        name_chain(selected, p) && p.len() >= 2 && p[0] == b && p.last() == c;
    let q = seq![a] + p;
    assert(name_chain(selected, q)) by {
        assert forall|i: int| 0 <= i < q.len() - 1 implies name_edge(
            selected,
            #[trigger] q[i],
            q[i + 1],
        ) by {
            assert(q[i + 1] == p[i]);
            if i > 0 {
                let k = i - 1;
                assert(q[i] == p[k]);
                assert(name_edge(selected, p[k], p[k + 1]));
            }
        }
    }
    assert(q[0] == a && q.last() == c);
}

/// A list that holds all that a name and its own names depend on holds all that the name leads to.
proof fn lemma_closed(selected: Selected, name: Text, found: Seq<Text>, p: Seq<Text>, k: int)
    requires
        followed(selected, name, found),
        forall|i: int| 0 <= i < found.len() ==> followed(selected, #[trigger] found[i], found),
        name_chain(selected, p),
        p.len() >= 2,
        p[0] == name,
        1 <= k < p.len(),
    ensures
        found.contains(p[k]),
    decreases k,
{
    assert(name_edge(selected, p[k - 1], p[k - 1 + 1]));
    if k > 1 {
        lemma_closed(selected, name, found, p, k - 1);
        let i = choose|i: int| 0 <= i < found.len() && found[i] == p[k - 1];
        assert(followed(selected, found[i], found));
    }
}

/// Following one more name of a list keeps what is known of the list.
proof fn lemma_followed(
    selected: Selected,
    name: Text,
    before: Seq<Text>,
    now: Seq<Text>,
    i: int,
)
    requires
        0 <= i < before.len(),
        before.is_prefix_of(now),
        found_from(selected, name, before),
        followed(selected, name, before),
        forall|j: int| 0 <= j < i ==> followed(selected, #[trigger] before[j], before),
        followed(selected, before[i], now),
        forall|j: int|
            before.len() <= j < now.len() ==> name_edge(selected, before[i], #[trigger] now[j]),
    ensures
        found_from(selected, name, now),
        followed(selected, name, now),
        forall|j: int| 0 <= j < i + 1 ==> followed(selected, #[trigger] now[j], now),
        forall|j: int| 0 <= j < before.len() ==> #[trigger] now[j] == before[j],
{
    assert(before == now.subrange(0, before.len() as int));
    assert forall|j: int| 0 <= j < before.len() implies #[trigger] now[j] == before[j] by {
        assert(now.subrange(0, before.len() as int)[j] == now[j]);
    }
    assert forall|x: Text| #[trigger] before.contains(x) implies now.contains(x) by {
        let j = choose|j: int| 0 <= j < before.len() && before[j] == x;
        assert(now[j] == x);
    }
    assert forall|j: int| 0 <= j < now.len() implies leads(selected, name, #[trigger] now[j]) by {
        assert(leads(selected, name, before[i]));
        if j < before.len() {
            assert(leads(selected, name, before[j]));
        } else {
            lemma_leads_on(selected, name, before[i], now[j]);
        }
    }
    assert forall|j: int| 0 <= j < i + 1 implies followed(selected, #[trigger] now[j], now) by {
        if j < i {
            assert(followed(selected, before[j], before));
        }
    }
}

/// Adds to the list what the name depends on.
fn follow(
    selected: &Vec<(PackageName, &Manifest)>,
    name: &PackageName,
    found: &mut Vec<PackageName>,
)
    requires
        table::sorted(selected.deep_view()),
    ensures
        old(found).deep_view().is_prefix_of(final(found).deep_view()),
        followed(selected.deep_view(), name@, final(found).deep_view()),
        forall|i: int|
            old(found)@.len() <= i < final(found)@.len() ==> name_edge(
                selected.deep_view(),
                name@,
                #[trigger] final(found).deep_view()[i],
            ),
        unfound(selected.deep_view(), final(found).deep_view()) <= unfound(
            selected.deep_view(),
            old(found).deep_view(),
        ),
        final(found)@.len() > old(found)@.len() ==> unfound(
            selected.deep_view(),
            final(found).deep_view(),
        ) < unfound(selected.deep_view(), old(found).deep_view()),
{
    let ghost all = selected.deep_view();
    let ghost start = found.deep_view();
    assert(start =~= start.subrange(0, start.len() as int));
    let m: &Manifest = match table::lookup(selected, name) {
        Some(m) => *m,
        None => {
            return ;
        },
    };
    let ghost deps = m@.depends;
    let mut i: usize = 0;
    while i < m.depends.len()
        invariant
            i <= m.depends@.len(),
            all == selected.deep_view(),
            deps == m.depends.deep_view(),
            deps == m@.depends,
            table::get(all, name@) == Some(m@),
            start == old(found).deep_view(),
            start.len() <= found@.len(),
            start.is_prefix_of(found.deep_view()),
            forall|j: int|
                0 <= j < i && table::has(all, (#[trigger] deps[j]).name)
                    ==> found.deep_view().contains(deps[j].name),
            forall|j: int|
                start.len() <= j < found@.len() ==> name_edge(
                    all,
                    name@,
                    #[trigger] found.deep_view()[j],
                ),
            unfound(all, found.deep_view()) <= unfound(all, start),
            found@.len() > start.len() ==> unfound(all, found.deep_view()) < unfound(all, start),
        decreases m.depends@.len() - i,
    {
        let dep = &m.depends[i].name;
        let ghost before = found.deep_view();
        assert(deps[i as int].name == dep@);
        if table::contains_key(selected, dep) && !search::on_path(found, dep) {
            proof {
                lemma_unfound(all, before, dep@);
                assert(request::mentions(deps, dep@));
                assert(name_edge(all, name@, dep@));
            }
            found.push(dep.clone());
            proof {
                let now = found.deep_view();
                assert(now =~= before.push(dep@));
                assert forall|j: int| 0 <= j < i + 1 && table::has(
                    all,
                    (#[trigger] deps[j]).name,
                ) implies now.contains(deps[j].name) by {
                    lists::lemma_push_contains(before, dep@, deps[j].name);
                }
                assert forall|j: int| start.len() <= j < now.len() implies name_edge(
                    all,
                    name@,
                    #[trigger] now[j],
                ) by {
                    if j < before.len() {
                        assert(now[j] == before[j]);
                    }
                }
                assert(start =~= now.subrange(0, start.len() as int)) by {
                    assert forall|j: int| 0 <= j < start.len() implies start[j] == now[j] by {
                        assert(start[j] == before[j]);
                    }
                }
            }
        }
        i += 1;
    }
    assert forall|b: Text| #[trigger] name_edge(all, name@, b) implies found.deep_view().contains(
        b,
    ) by {
        let j = choose|j: int| 0 <= j < deps.len() && (#[trigger] deps[j]).name == b;
        assert(table::has(all, deps[j].name));
    }
}

/// The selected names that the name depends on, directly or through others.
pub fn reached(selected: &Vec<(PackageName, &Manifest)>, name: &PackageName) -> (r: Vec<
    PackageName,
>)
    requires
        table::sorted(selected.deep_view()),
    ensures
        forall|n: Text| #[trigger]
            r.deep_view().contains(n) == leads(selected.deep_view(), name@, n),
{
    let ghost all = selected.deep_view();
    let mut found: Vec<PackageName> = Vec::new();
    follow(selected, name, &mut found);
    proof {
        let now = found.deep_view();
        assert forall|i: int| 0 <= i < now.len() implies leads(all, name@, #[trigger] now[i]) by {
            lemma_leads_one(all, name@, now[i]);
        }
    }
    let mut i: usize = 0;
    while i < found.len()
        invariant
            i <= found@.len(),
            all == selected.deep_view(),
            table::sorted(all),
            found_from(all, name@, found.deep_view()),
            followed(all, name@, found.deep_view()),
            forall|j: int|
                0 <= j < i ==> followed(all, #[trigger] found.deep_view()[j], found.deep_view()),
        decreases unfound(all, found.deep_view()), found@.len() - i,
    {
        let at = found[i].clone();
        let ghost before = found.deep_view();
        assert(before[i as int] == at@);
        follow(selected, &at, &mut found);
        proof {
            lemma_followed(all, name@, before, found.deep_view(), i as int);
        }
        i += 1;
    }
    proof {
        let now = found.deep_view();
        assert forall|n: Text| #[trigger] now.contains(n) == leads(all, name@, n) by {
            if leads(all, name@, n) {
                let p = choose|p: Seq<Text>| #[trigger]
                    name_chain(all, p) && p.len() >= 2 && p[0] == name@ && p.last() == n;
                lemma_closed(all, name@, now, p, p.len() - 1);
            }
        }
    }
    found
}

/// Fails if a selected name depends on itself.
pub fn check_circles(selected: &Vec<(PackageName, &Manifest)>) -> (r: Result<(), ResolverFailure>)
    requires
        table::sorted(selected.deep_view()),
    ensures
        match r {
            Ok(()) => first_circle(selected.deep_view()) is None,
            Err(e) => first_circle(selected.deep_view()) matches Some(n) && e@ == circle_failure(n),
        },
{
    let ghost all = selected.deep_view();
    let mut i: usize = 0;
    while i < selected.len()
        invariant
            i <= selected@.len(),
            all == selected.deep_view(),
            table::sorted(all),
            first_circle(all) == circle_from(all, i as int),
        decreases selected@.len() - i,
    {
        assert(all[i as int].0 == selected@[i as int].0@);
        if search::on_path(&reached(selected, &selected[i].0), &selected[i].0) {
            return Err(ResolverFailure::cycle(selected[i].0.as_str()));
        }
        i += 1;
    }
    Ok(())
}

/// Where no circle is found, no selected name depends on itself.
pub proof fn lemma_no_circle(selected: Selected, i: int, name: Text)
    requires
        circle_from(selected, i) is None,
        0 <= i <= selected.len(),
        forall|j: int| 0 <= j < i ==> !circular(selected, (#[trigger] selected[j]).0),
    ensures
        !circular(selected, name),
    decreases selected.len() - i,
{
    if i < selected.len() {
        lemma_no_circle(selected, i + 1, name);
    } else if circular(selected, name) {
        let p = choose|p: Seq<Text>| #[trigger]
            name_chain(selected, p) && p.len() >= 2 && p[0] == name && p.last() == name;
        let first: int = 0;
        assert(name_edge(selected, p[first], p[first + 1]));
        let k = table::lemma_index(selected, name);
        assert(!circular(selected, selected[k].0));
    }
}

} // verus!
