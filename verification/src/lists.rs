//! Facts about lists.

use vstd::prelude::*;

verus! {

/// What a list holds after one more item.
pub proof fn lemma_push_contains<A>(s: Seq<A>, a: A, x: A)
    ensures
        s.push(a).contains(x) == (x == a || s.contains(x)),
{
    assert(s.push(a)[s.len() as int] == a);
    if s.contains(x) {
        let i = choose|i: int| 0 <= i < s.len() && s[i] == x;
        assert(s.push(a)[i] == x);
    }
    if s.push(a).contains(x) && x != a {
        let i = choose|i: int| 0 <= i < s.push(a).len() && s.push(a)[i] == x;
        assert(s[i] == x);
    }
}

/// What a list holds is its last item and the rest.
pub proof fn lemma_last_contains<A>(s: Seq<A>, x: A)
    requires
        s.len() > 0,
    ensures
        s.contains(x) == (x == s.last() || s.drop_last().contains(x)),
{
    assert(s =~= s.drop_last().push(s.last()));
    lemma_push_contains(s.drop_last(), s.last(), x);
}

/// A filtered list holds exactly what the list holds of what passes the filter.
pub proof fn lemma_filter<A>(list: Seq<A>, pred: spec_fn(A) -> bool)
    ensures
        forall|x: A| #[trigger] list.filter(pred).contains(x) == (list.contains(x) && pred(x)),
        list.filter(pred).len() <= list.len(),
    decreases list.len(),
{
    reveal(Seq::filter);
    if list.len() > 0 {
        let front = list.drop_last().filter(pred);
        lemma_filter(list.drop_last(), pred);
        assert forall|x: A| #[trigger] list.filter(pred).contains(x) == (list.contains(x) && pred(
            x,
        )) by {
            lemma_last_contains(list, x);
            lemma_push_contains(front, list.last(), x);
        }
    }
}

/// Two lists one after the other hold what either holds.
pub proof fn lemma_concat_contains<A>(a: Seq<A>, b: Seq<A>, x: A)
    ensures
        (a + b).contains(x) == (a.contains(x) || b.contains(x)),
{
    if a.contains(x) {
        let i = choose|i: int| 0 <= i < a.len() && a[i] == x;
        assert((a + b)[i] == x);
    }
    if b.contains(x) {
        let i = choose|i: int| 0 <= i < b.len() && b[i] == x;
        assert((a + b)[a.len() + i] == x);
    }
}

/// A stricter filter leaves no more, and less if it takes out an item that the other leaves.
pub proof fn lemma_filter_shrinks<A>(
    list: Seq<A>,
    wide: spec_fn(A) -> bool,
    narrow: spec_fn(A) -> bool,
)
    requires
        forall|x: A| #[trigger] narrow(x) ==> wide(x),
    ensures
        list.filter(narrow).len() <= list.filter(wide).len(),
        (exists|x: A| list.contains(x) && wide(x) && !narrow(x)) ==> list.filter(narrow).len()
            < list.filter(wide).len(),
    decreases list.len(),
{
    reveal(Seq::filter);
    if list.len() > 0 {
        lemma_filter_shrinks(list.drop_last(), wide, narrow);
        if exists|x: A| list.contains(x) && wide(x) && !narrow(x) {
            let x = choose|x: A| list.contains(x) && wide(x) && !narrow(x);
            lemma_last_contains(list, x);
            if x != list.last() {
                assert(list.drop_last().contains(x) && wide(x) && !narrow(x));
            }
        }
    }
}

/// What passes the filter first among the first items passes it first among all.
pub proof fn lemma_filter_first<A>(list: Seq<A>, pred: spec_fn(A) -> bool, n: int)
    requires
        0 <= n <= list.len(),
        list.take(n).filter(pred).len() > 0,
    ensures
        list.filter(pred).len() > 0,
        list.filter(pred)[0] == list.take(n).filter(pred)[0],
    decreases list.len(),
{
    reveal(Seq::filter);
    if n == list.len() {
        assert(list.take(n) == list);
    } else {
        assert(list.drop_last().take(n) == list.take(n));
        lemma_filter_first(list.drop_last(), pred, n);
    }
}

/// What passes one filter last still does so after another filter that it passes too.
pub proof fn lemma_filter_last<A>(
    list: Seq<A>,
    other: spec_fn(A) -> bool,
    pred: spec_fn(A) -> bool,
)
    requires
        list.filter(pred).len() > 0,
        other(list.filter(pred).last()),
    ensures
        list.filter(other).filter(pred).len() > 0,
        list.filter(other).filter(pred).last() == list.filter(pred).last(),
    decreases list.len(),
{
    reveal(Seq::filter);
    if list.len() > 0 {
        let d = list.drop_last();
        let x = list.last();
        let f = d.filter(other);
        assert(f.push(x).drop_last() =~= f);
        if !pred(x) {
            lemma_filter_last(d, other, pred);
        }
    }
}

/// What passes one filter first still does so after another filter that it passes too.
pub proof fn lemma_filter_head<A>(
    list: Seq<A>,
    other: spec_fn(A) -> bool,
    pred: spec_fn(A) -> bool,
)
    requires
        list.filter(pred).len() > 0,
        other(list.filter(pred)[0]),
    ensures
        list.filter(other).filter(pred).len() > 0,
        list.filter(other).filter(pred)[0] == list.filter(pred)[0],
    decreases list.len(),
{
    reveal(Seq::filter);
    if list.len() > 0 {
        let d = list.drop_last();
        let x = list.last();
        let f = d.filter(other);
        assert(f.push(x).drop_last() =~= f);
        if d.filter(pred).len() > 0 {
            lemma_filter_head(d, other, pred);
        } else {
            lemma_filter(d, other);
            lemma_filter(d, pred);
            lemma_filter(f, pred);
            if f.filter(pred).len() > 0 {
                assert(f.filter(pred).contains(f.filter(pred)[0]));
                assert(d.filter(pred).contains(f.filter(pred)[0]));
            }
        }
    }
}

/// A filter that everything passes changes nothing.
pub proof fn lemma_filter_all<A>(list: Seq<A>, pred: spec_fn(A) -> bool)
    requires
        forall|x: A| #[trigger] pred(x),
    ensures
        list.filter(pred) == list,
    decreases list.len(),
{
    reveal(Seq::filter);
    if list.len() > 0 {
        lemma_filter_all(list.drop_last(), pred);
        assert(list.drop_last().push(list.last()) =~= list);
    }
}

} // verus!
