//! Tables keyed by package name, kept in ascending order of the names.

use vstd::prelude::*;

use crate::package_name::PackageName;
use crate::text;
use crate::text::Text;

verus! {

/// Whether the keys ascend strictly.
pub open spec fn sorted<V>(t: Seq<(Text, V)>) -> bool {
    forall|i: int, j: int|
        #![trigger t[i], t[j]]
        0 <= i < j < t.len() ==> text::text_lt(t[i].0, t[j].0)
}

/// Whether the table has the key.
pub open spec fn has<V>(t: Seq<(Text, V)>, key: Text) -> bool {
    exists|i: int| 0 <= i < t.len() && t[i].0 == key
}

/// Where the key stands.
pub open spec fn index_of<V>(t: Seq<(Text, V)>, key: Text) -> int {
    choose|i: int| 0 <= i < t.len() && t[i].0 == key
}

/// The value of the key.
pub open spec fn get<V>(t: Seq<(Text, V)>, key: Text) -> Option<V> {
    if has(t, key) {
        Some(t[index_of(t, key)].1)
    } else {
        None
    }
}

/// The table with the key set to the value, in its place in the order.
pub open spec fn put<V>(t: Seq<(Text, V)>, key: Text, value: V) -> Seq<(Text, V)>
    decreases t.len(),
{
    if t.len() == 0 {
        seq![(key, value)]
    } else if t.last().0 == key {
        t.drop_last().push((key, value))
    } else if text::text_lt(key, t.last().0) {
        put(t.drop_last(), key, value).push(t.last())
    } else {
        t.push((key, value))
    }
}

/// Whether an entry has another key than the given one.
pub open spec fn other_key<V>(key: Text) -> spec_fn((Text, V)) -> bool {
    |e: (Text, V)| e.0 != key
}

/// The table without the key.
pub open spec fn without<V>(t: Seq<(Text, V)>, key: Text) -> Seq<(Text, V)> {
    t.filter(other_key(key))
}

/// The values, in the order of their keys.
pub open spec fn values<V>(t: Seq<(Text, V)>) -> Seq<V> {
    t.map_values(|e: (Text, V)| e.1)
}

/// Where the key stands in the table.
pub fn position<V>(t: &Vec<(PackageName, V)>, key: &PackageName) -> (r: Option<usize>)
    ensures
        match r {
            Some(i) => i < t@.len() && t@[i as int].0@ == key@,
            None => forall|i: int| 0 <= i < t@.len() ==> (#[trigger] t@[i]).0@ != key@,
        },
{
    let mut i: usize = 0;
    while i < t.len()
        invariant
            i <= t@.len(),
            forall|j: int| 0 <= j < i ==> (#[trigger] t@[j]).0@ != key@,
        decreases t@.len() - i,
    {
        if t[i].0.same(key) {
            return Some(i);
        }
        i += 1;
    }
    None
}

/// Whether the table has the key.
pub fn contains_key<V: DeepView>(t: &Vec<(PackageName, V)>, key: &PackageName) -> (r: bool)
    ensures
        r == has(t.deep_view(), key@),
{
    let r = position(t, key);
    proof {
        if let Some(i) = r {
            assert(t.deep_view()[i as int].0 == key@);
        } else if has(t.deep_view(), key@) {
            let i = choose|i: int| 0 <= i < t.deep_view().len() && t.deep_view()[i].0 == key@;
            assert(t@[i].0@ == key@);
        }
    }
    r.is_some()
}

/// The value of the key.
pub fn lookup<'a, V: DeepView>(t: &'a Vec<(PackageName, V)>, key: &PackageName) -> (r: Option<
    &'a V,
>)
    requires
        sorted(t.deep_view()),
    ensures
        r.deep_view() == get(t.deep_view(), key@),
{
    match position(t, key) {
        Some(i) => {
            proof {
                lemma_get(t.deep_view(), i as int);
                assert(t.deep_view()[i as int].0 == key@);
            }
            Some(&t[i].1)
        },
        None => {
            proof {
                if has(t.deep_view(), key@) {
                    let i = choose|i: int|
                        0 <= i < t.deep_view().len() && t.deep_view()[i].0 == key@;
                    assert(t@[i].0@ == key@);
                }
            }
            None
        },
    }
}

/// Sets the key to the value.
pub fn set<V: DeepView>(t: &mut Vec<(PackageName, V)>, key: PackageName, value: V)
    requires
        sorted(old(t).deep_view()),
    ensures
        final(t).deep_view() == put(old(t).deep_view(), key@, value.deep_view()),
        sorted(final(t).deep_view()),
{
    let ghost s = t.deep_view();
    let ghost k = key@;
    let ghost v = value.deep_view();
    let mut i: usize = t.len();
    assert(s.take(i as int) == s);
    assert(put(s, k, v) =~= put(s.take(i as int), k, v) + s.skip(i as int));
    while i > 0 && key.precedes(&t[i - 1].0)
        invariant
            i <= t@.len(),
            t.deep_view() == s,
            k == key@,
            put(s, k, v) == put(s.take(i as int), k, v) + s.skip(i as int),
        decreases i,
    {
        assert(t.deep_view()[i - 1].0 == t@[i - 1].0@);
        assert(s.take(i as int).drop_last() == s.take(i - 1));
        proof {
            text::lemma_text_lt_irreflexive(k);
        }
        assert(put(s, k, v) =~= put(s.take(i - 1), k, v) + s.skip(i - 1));
        i -= 1;
    }
    proof {
        lemma_put(s, k, v);
        if i > 0 {
            assert(t.deep_view()[i - 1].0 == t@[i - 1].0@);
            assert(s.take(i as int).drop_last() == s.take(i - 1));
        }
    }
    if i > 0 && t[i - 1].0.same(&key) {
        t[i - 1] = (key, value);
        assert(t.deep_view() =~= s.update(i - 1, (k, v)));
        assert(put(s, k, v) =~= s.update(i - 1, (k, v)));
    } else {
        t.insert(i, (key, value));
        assert(t.deep_view() =~= s.insert(i as int, (k, v)));
        assert(put(s, k, v) =~= s.insert(i as int, (k, v)));
    }
}

/// Takes the key out of the table.
pub fn unset<V: DeepView>(t: &mut Vec<(PackageName, V)>, key: &PackageName)
    requires
        sorted(old(t).deep_view()),
    ensures
        final(t).deep_view() == without(old(t).deep_view(), key@),
        sorted(final(t).deep_view()),
{
    let ghost s = t.deep_view();
    proof {
        lemma_without(s, key@);
    }
    match position(t, key) {
        Some(i) => {
            assert(s[i as int].0 == key@);
            t.remove(i);
            assert(t.deep_view() =~= s.remove(i as int));
            proof {
                lemma_remove_is_without(s, i as int);
            }
        },
        None => {
            assert forall|j: int| 0 <= j < s.len() implies (#[trigger] s[j]).0 != key@ by {
                assert(s[j].0 == t@[j].0@);
            }
            proof {
                lemma_without_absent(s, key@);
            }
        },
    }
}

proof fn lemma_without_absent<V>(t: Seq<(Text, V)>, key: Text)
    requires
        forall|j: int| 0 <= j < t.len() ==> (#[trigger] t[j]).0 != key,
    ensures
        without(t, key) == t,
    decreases t.len(),
{
    reveal(Seq::filter);
    if t.len() > 0 {
        assert forall|j: int| 0 <= j < t.drop_last().len() implies (
        #[trigger] t.drop_last()[j]).0 != key by {
            assert(t.drop_last()[j] == t[j]);
        }
        lemma_without_absent(t.drop_last(), key);
        assert(t.last() == t[t.len() - 1]);
        assert(t.drop_last().push(t.last()) =~= t);
    }
}

proof fn lemma_remove_is_without<V>(t: Seq<(Text, V)>, i: int)
    requires
        sorted(t),
        0 <= i < t.len(),
    ensures
        t.remove(i) == without(t, t[i].0),
    decreases t.len(),
{
    reveal(Seq::filter);
    let key = t[i].0;
    let d = t.drop_last();
    assert(sorted(d));
    text::lemma_text_lt_irreflexive(key);
    if i == t.len() - 1 {
        assert forall|j: int| 0 <= j < d.len() implies (#[trigger] d[j]).0 != key by {
            assert(d[j] == t[j] && t[i].0 == key);
        }
        lemma_without_absent(d, key);
        assert(t.remove(i) =~= d);
    } else {
        assert(d[i] == t[i]);
        lemma_remove_is_without(d, i);
        assert(t.last().0 != key) by {
            assert(t.last() == t[t.len() - 1] && t[i].0 == key);
        }
        assert(t.remove(i) =~= d.remove(i).push(t.last()));
    }
}

/// Taking a key out keeps the order and every other key.
pub proof fn lemma_without<V>(t: Seq<(Text, V)>, key: Text)
    requires
        sorted(t),
    ensures
        sorted(without(t, key)),
        forall|other: Text| #[trigger]
            has(without(t, key), other) == (other != key && has(t, other)),
        forall|other: Text|
            other != key ==> #[trigger] get(without(t, key), other) == get(t, other),
    decreases t.len(),
{
    reveal(Seq::filter);
    let w = without(t, key);
    if t.len() > 0 {
        let d = t.drop_last();
        assert(sorted(d));
        lemma_without(d, key);
        let wd = without(d, key);
        if t.last().0 != key {
            assert(w == wd.push(t.last()));
            assert forall|i: int, j: int|
                #![trigger w[i], w[j]]
                0 <= i < j < w.len() implies text::text_lt(w[i].0, w[j].0) by {
                if j == w.len() - 1 {
                    assert(has(wd, wd[i].0));
                    assert(has(d, wd[i].0));
                    let k = lemma_index(d, wd[i].0);
                    assert(t[k].0 == w[i].0 && t[t.len() - 1] == w[j]);
                } else {
                    assert(w[i] == wd[i] && w[j] == wd[j]);
                }
            }
            assert(w.drop_last() =~= wd);
        }
        assert forall|other: Text| #[trigger] has(w, other) == (other != key && has(
            t,
            other,
        )) by {
            lemma_get_last(t, other);
            if t.last().0 != key {
                lemma_get_last(w, other);
            }
        }
        assert forall|other: Text| other != key implies #[trigger] get(w, other) == get(
            t,
            other,
        ) by {
            lemma_get_last(t, other);
            if t.last().0 != key {
                lemma_get_last(w, other);
            }
        }
    }
}

/// Filtering keeps the order and every entry that passes.
pub proof fn lemma_kept<V>(t: Seq<(Text, V)>, pred: spec_fn((Text, V)) -> bool)
    requires
        sorted(t),
    ensures
        sorted(t.filter(pred)),
        forall|key: Text|
            (#[trigger] get(t.filter(pred), key)) == match get(t, key) {
                Some(v) => if pred((key, v)) {
                    Some(v)
                } else {
                    None
                },
                None => None,
            },
    decreases t.len(),
{
    reveal(Seq::filter);
    let w = t.filter(pred);
    if t.len() > 0 {
        let d = t.drop_last();
        let last = t.last();
        let wd = d.filter(pred);
        assert(sorted(d));
        lemma_kept(d, pred);
        if pred(last) {
            assert(w == wd.push(last));
            assert forall|i: int, j: int|
                #![trigger w[i], w[j]]
                0 <= i < j < w.len() implies text::text_lt(w[i].0, w[j].0) by {
                if j == w.len() - 1 {
                    lemma_get(wd, i);
                    assert(get(d, wd[i].0) is Some);
                    let k = lemma_index(d, wd[i].0);
                    assert(t[k].0 == w[i].0 && t[t.len() - 1] == w[j]);
                } else {
                    assert(w[i] == wd[i] && w[j] == wd[j]);
                }
            }
            assert(w.drop_last() =~= wd);
        }
        assert forall|key: Text|
            (#[trigger] get(w, key)) == match get(t, key) {
                Some(v) => if pred((key, v)) {
                    Some(v)
                } else {
                    None
                },
                None => None,
            } by {
            lemma_get_last(t, key);
            assert(get(wd, key) is Some ==> get(d, key) is Some);
            if pred(last) {
                lemma_get_last(w, key);
            }
            if key == last.0 && get(d, key) is Some {
                let k = lemma_index(d, key);
                assert(t[k].0 == key && t[t.len() - 1].0 == key);
                text::lemma_text_lt_irreflexive(key);
            }
        }
    }
}

/// In a table every entry is what its key looks up.
pub proof fn lemma_get<V>(t: Seq<(Text, V)>, i: int)
    requires
        sorted(t),
        0 <= i < t.len(),
    ensures
        get(t, t[i].0) == Some(t[i].1),
{
    let key = t[i].0;
    let j = index_of(t, key);
    assert(t[j].0 == key);
    text::lemma_text_lt_irreflexive(key);
    assert(j == i);
}

/// Where a key that a table has stands in it.
pub proof fn lemma_index<V>(t: Seq<(Text, V)>, key: Text) -> (i: int)
    requires
        has(t, key),
    ensures
        0 <= i < t.len(),
        t[i].0 == key,
        get(t, key) == Some(t[i].1),
{
    index_of(t, key)
}

/// A table is determined by its last entry and the rest.
pub proof fn lemma_get_last<V>(t: Seq<(Text, V)>, key: Text)
    requires
        sorted(t),
        t.len() > 0,
    ensures
        has(t, key) == (key == t.last().0 || has(t.drop_last(), key)),
        get(t, key) == if key == t.last().0 {
            Some(t.last().1)
        } else {
            get(t.drop_last(), key)
        },
        sorted(t.drop_last()),
{
    let d = t.drop_last();
    assert(sorted(d));
    if key == t.last().0 {
        lemma_get(t, t.len() - 1);
    } else if has(t, key) {
        let i = lemma_index(t, key);
        assert(d[i].0 == key);
        lemma_get(t, i);
        lemma_get(d, i);
    } else if has(d, key) {
        let i = lemma_index(d, key);
        assert(t[i].0 == key);
    }
}

proof fn lemma_put_keys<V>(t: Seq<(Text, V)>, key: Text, value: V, other: Text)
    ensures
        has(put(t, key, value), other) == (other == key || has(t, other)),
    decreases t.len(),
{
    let p = put(t, key, value);
    if t.len() == 0 {
        assert(p[0].0 == key);
    } else {
        let d = t.drop_last();
        assert(has(t, other) == (other == t.last().0 || has(d, other))) by {
            if has(t, other) && other != t.last().0 {
                let i = lemma_index(t, other);
                assert(d[i].0 == other);
            }
            if has(d, other) {
                let i = lemma_index(d, other);
                assert(t[i].0 == other);
            }
            assert(t[t.len() - 1].0 == t.last().0);
        }
        lemma_put_keys(d, key, value, other);
        let q = p.drop_last();
        assert(has(p, other) == (other == p.last().0 || has(q, other))) by {
            if has(p, other) && other != p.last().0 {
                let i = lemma_index(p, other);
                assert(q[i].0 == other);
            }
            if has(q, other) {
                let i = lemma_index(q, other);
                assert(p[i].0 == other);
            }
            assert(p[p.len() - 1].0 == p.last().0);
        }
        if t.last().0 == key {
            assert(q =~= d);
        } else if text::text_lt(key, t.last().0) {
            assert(q =~= put(d, key, value));
        } else {
            assert(q =~= t);
        }
    }
}

/// Setting a key keeps the order, changes that key and no other.
pub proof fn lemma_put<V>(t: Seq<(Text, V)>, key: Text, value: V)
    requires
        sorted(t),
    ensures
        sorted(put(t, key, value)),
        get(put(t, key, value), key) == Some(value),
        forall|other: Text|
            other != key ==> #[trigger] get(put(t, key, value), other) == get(t, other),
        forall|other: Text| #[trigger]
            has(put(t, key, value), other) == (other == key || has(t, other)),
    decreases t.len(),
{
    let p = put(t, key, value);
    assert forall|other: Text| #[trigger] has(p, other) == (other == key || has(t, other)) by {
        lemma_put_keys(t, key, value, other);
    }
    if t.len() == 0 {
        assert(sorted(p));
        lemma_get(p, 0);
    } else {
        let d = t.drop_last();
        assert(sorted(d));
        lemma_put(d, key, value);
        text::lemma_text_lt_total(key, t.last().0);
        text::lemma_text_lt_irreflexive(key);
        if t.last().0 == key {
            assert(sorted(p));
            assert(p.drop_last() =~= d);
        } else if text::text_lt(key, t.last().0) {
            let q = put(d, key, value);
            assert(p.drop_last() =~= q);
            assert forall|i: int, j: int| 0 <= i < j < p.len() implies text::text_lt(
                p[i].0,
                p[j].0,
            ) by {
                if j == p.len() - 1 {
                    assert(has(q, q[i].0));
                    lemma_put_keys(d, key, value, q[i].0);
                    if q[i].0 != key {
                        let m = lemma_index(d, q[i].0);
                        assert(t[m].0 == q[i].0);
                    }
                } else {
                    assert(p[i] == q[i] && p[j] == q[j]);
                }
            }
        } else {
            assert(p.drop_last() =~= t);
            assert forall|i: int, j: int| 0 <= i < j < p.len() implies text::text_lt(
                p[i].0,
                p[j].0,
            ) by {
                if j == p.len() - 1 {
                    if i < t.len() - 1 {
                        text::lemma_text_lt_transitive(t[i].0, t.last().0, key);
                    }
                } else {
                    assert(p[i] == t[i] && p[j] == t[j]);
                }
            }
        }
        assert(sorted(p));
        lemma_get_last(p, key);
        assert forall|other: Text| other != key implies #[trigger] get(p, other) == get(
            t,
            other,
        ) by {
            lemma_get_last(p, other);
            lemma_get_last(t, other);
            if t.last().0 != key && !text::text_lt(key, t.last().0) {
                assert(p.drop_last() =~= t);
            }
        }
    }
}

} // verus!
