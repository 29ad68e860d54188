//! What the order of versions is, stated of the dotted segments of the versions.

use std::cmp::Ordering;

use vstd::prelude::*;
use vstd::string::*;

use crate::dep_constraint;
use crate::dep_constraint::{DepConstraintView, DepOp};
use crate::text;
use crate::text::Text;
use crate::text_laws;
use crate::version;

verus! {

/// Whether the segment begins with `n` digits that write a number of at most 64 bits, and no digit
/// follows them.
pub open spec fn begins_with_number(segment: Text, n: int) -> bool {
    &&& 0 < n <= segment.len()
    &&& forall|k: int| 0 <= k < n ==> '0' <= #[trigger] segment[k] <= '9'
    &&& n < segment.len() ==> !('0' <= segment[n] <= '9')
    &&& text_laws::value_of(segment.take(n)) <= 0xffff_ffff_ffff_ffff
}

/// Whether the segment begins with no number of at most 64 bits.
pub open spec fn is_word(segment: Text) -> bool {
    forall|n: int| !#[trigger] begins_with_number(segment, n)
}

proof fn lemma_value(s: Text)
    requires
        forall|k: int| 0 <= k < s.len() ==> '0' <= #[trigger] s[k] <= '9',
    ensures
        text_laws::value_of(s) == version::number(s),
    decreases s.len(),
{
    if s.len() > 0 {
        let d = s.drop_last();
        assert forall|k: int| 0 <= k < d.len() implies '0' <= #[trigger] d[k] <= '9' by {
            assert(d[k] == s[k]);
        }
        lemma_value(d);
        let c = s.last();
        assert(c == s[s.len() - 1]);
        reveal_strlit("0123456789");
        let all = "0123456789"@;
        let n = (c as u32) - ('0' as u32);
        assert(all[0] == '0' && all[1] == '1' && all[2] == '2' && all[3] == '3' && all[4] == '4');
        assert(all[5] == '5' && all[6] == '6' && all[7] == '7' && all[8] == '8' && all[9] == '9');
        assert(n == 0 || n == 1 || n == 2 || n == 3 || n == 4 || n == 5 || n == 6 || n == 7 || n
            == 8 || n == 9);
        assert(all[n] == c);
        assert(all.contains(c));
        let i = all.index_of(c);
        assert(0 <= i < all.len() && all[i] == c);
        assert(i == 0 || i == 1 || i == 2 || i == 3 || i == 4 || i == 5 || i == 6 || i == 7 || i
            == 8 || i == 9);
        assert(i == n);
    }
}

/// A leading number makes a segment ordered by that number and what follows it.
proof fn lemma_number_key(s: Text, n: int)
    requires
        begins_with_number(s, n),
    ensures
        version::segment_key(s) == version::SegmentKey::Number(
            text_laws::value_of(s.take(n)),
            s.skip(n),
        ),
{
    version::lemma_leading_digits(s, n as nat);
    let d = s.take(n);
    assert forall|k: int| 0 <= k < d.len() implies '0' <= #[trigger] d[k] <= '9' by {
        assert(d[k] == s[k]);
    }
    lemma_value(d);
}

/// Any other segment is ordered by its text.
proof fn lemma_word_key(s: Text)
    requires
        is_word(s),
    ensures
        version::segment_key(s) == version::SegmentKey::Word(s),
{
    let n = version::leading_digits(s) as int;
    lemma_leading(s);
    if n > 0 {
        let d = s.take(n);
        assert forall|k: int| 0 <= k < d.len() implies '0' <= #[trigger] d[k] <= '9' by {
            assert(d[k] == s[k]);
        }
        lemma_value(d);
        assert(!begins_with_number(s, n));
    }
}

proof fn lemma_leading(s: Text)
    ensures
        version::leading_digits(s) <= s.len(),
        forall|k: int|
            0 <= k < version::leading_digits(s) ==> '0' <= #[trigger] s[k] <= '9',
        version::leading_digits(s) < s.len() ==> !('0' <= s[version::leading_digits(s) as int]
            <= '9'),
    decreases s.len(),
{
    if s.len() > 0 && text::is_digit(s[0]) {
        let d = s.drop_first();
        lemma_leading(d);
        assert forall|k: int| 0 <= k < version::leading_digits(s) implies '0' <= #[trigger] s[k]
            <= '9' by {
            if k > 0 {
                assert(d[k - 1] == s[k]);
            }
        }
        if version::leading_digits(d) < d.len() {
            assert(d[version::leading_digits(d) as int] == s[version::leading_digits(s) as int]);
        }
    }
}

/// Whether two segments have the same number and the same rest, or are the same word.
pub open spec fn same_segment(a: Text, b: Text) -> bool {
    ||| a == b
    ||| exists|m: int, n: int| #[trigger]
        begins_with_number(a, m) && #[trigger] begins_with_number(b, n) && text_laws::value_of(
            a.take(m),
        ) == text_laws::value_of(b.take(n)) && a.skip(m) == b.skip(n)
}

proof fn lemma_same_segment(a: Text, b: Text)
    ensures
        same_segment(a, b) == (version::segment_key(a) == version::segment_key(b)),
{
    if a != b && version::segment_key(a) == version::segment_key(b) {
        if is_word(a) {
            lemma_word_key(a);
            if is_word(b) {
                lemma_word_key(b);
            } else {
                let n = choose|n: int| begins_with_number(b, n);
                lemma_number_key(b, n);
            }
        } else {
            let m = choose|m: int| begins_with_number(a, m);
            lemma_number_key(a, m);
            if is_word(b) {
                lemma_word_key(b);
            } else {
                let n = choose|n: int| begins_with_number(b, n);
                lemma_number_key(b, n);
                assert(begins_with_number(a, m) && begins_with_number(b, n));
            }
        }
    }
    if a != b && same_segment(a, b) {
        let (m, n) = choose|m: int, n: int| #[trigger]
            begins_with_number(a, m) && #[trigger] begins_with_number(b, n) && text_laws::value_of(
                a.take(m),
            ) == text_laws::value_of(b.take(n)) && a.skip(m) == b.skip(n);
        lemma_number_key(a, m);
        lemma_number_key(b, n);
    }
}

/// Two versions rank the same exactly where they have equally many dotted segments and at each
/// position the same segment: the same number and the same rest, or the same word.
pub proof fn lemma_same_rank(a: Text, b: Text)
    ensures
        version::version_eq(a, b) == (text::split(a, '.').len() == text::split(b, '.').len()
            && forall|i: int|
            0 <= i < text::split(a, '.').len() ==> same_segment(
                #[trigger] text::split(a, '.')[i],
                text::split(b, '.')[i],
            )),
{
    let x = text::split(a, '.');
    let y = text::split(b, '.');
    if version::version_eq(a, b) {
        assert(version::keys(a).len() == x.len() && version::keys(b).len() == y.len());
        assert forall|i: int| 0 <= i < x.len() implies same_segment(#[trigger] x[i], y[i]) by {
            assert(version::keys(a)[i] == version::segment_key(x[i]));
            assert(version::keys(b)[i] == version::segment_key(y[i]));
            lemma_same_segment(x[i], y[i]);
        }
    }
    if x.len() == y.len() && forall|i: int|
        0 <= i < x.len() ==> same_segment(#[trigger] x[i], y[i]) {
        assert forall|i: int| 0 <= i < x.len() implies version::keys(a)[i] == version::keys(
            b,
        )[i] by {
            assert(same_segment(x[i], y[i]));
            lemma_same_segment(x[i], y[i]);
        }
        assert(version::keys(a) =~= version::keys(b));
    }
}

/// Whether the versions have the same segments before position `i`.
pub open spec fn agree_before(a: Text, b: Text, i: int) -> bool {
    &&& 0 <= i <= text::split(a, '.').len()
    &&& i <= text::split(b, '.').len()
    &&& forall|k: int|
        0 <= k < i ==> same_segment(#[trigger] text::split(a, '.')[k], text::split(b, '.')[k])
}

proof fn lemma_keys_skip(x: Seq<version::SegmentKey>, y: Seq<version::SegmentKey>, i: int)
    requires
        0 <= i <= x.len(),
        i <= y.len(),
        forall|k: int| 0 <= k < i ==> #[trigger] x[k] == y[k],
    ensures
        version::keys_lt(x, y) == version::keys_lt(x.skip(i), y.skip(i)),
    decreases i,
{
    if i == 0 {
        assert(x.skip(0) =~= x && y.skip(0) =~= y);
    } else {
        assert(x[0] == y[0]);
        assert forall|k: int| 0 <= k < i - 1 implies #[trigger] x.drop_first()[k]
            == y.drop_first()[k] by {
            assert(x[k + 1] == y[k + 1]);
        }
        lemma_keys_skip(x.drop_first(), y.drop_first(), i - 1);
        assert(x.drop_first().skip(i - 1) =~= x.skip(i));
        assert(y.drop_first().skip(i - 1) =~= y.skip(i));
    }
}

proof fn lemma_agree(a: Text, b: Text, i: int)
    requires
        agree_before(a, b, i),
    ensures
        version::version_lt(a, b) == version::keys_lt(
            version::keys(a).skip(i),
            version::keys(b).skip(i),
        ),
        version::keys(a).len() == text::split(a, '.').len(),
        version::keys(b).len() == text::split(b, '.').len(),
{
    let x = version::keys(a);
    let y = version::keys(b);
    let p = text::split(a, '.');
    let q = text::split(b, '.');
    assert forall|k: int| 0 <= k < i implies #[trigger] x[k] == y[k] by {
        assert(same_segment(p[k], q[k]));
        lemma_same_segment(p[k], q[k]);
    }
    lemma_keys_skip(x, y, i);
}

/// Versions are compared segment by segment. At the first position at which the segments differ, of
/// whatever two versions: of two numbers the smaller is older; of equal numbers the one with the
/// earlier rest; a word is older than a number; and of two words the earlier is older.
pub proof fn lemma_first_difference(a: Text, b: Text, i: int, m: int, n: int)
    requires
        agree_before(a, b, i),
        i < text::split(a, '.').len(),
        i < text::split(b, '.').len(),
    ensures
        ({
            let p = text::split(a, '.')[i];
            let q = text::split(b, '.')[i];
            let x = text_laws::value_of(p.take(m));
            let y = text_laws::value_of(q.take(n));
            &&& begins_with_number(p, m) && begins_with_number(q, n) && x < y
                ==> version::version_order(a, b) == Ordering::Less && version::version_order(b, a)
                == Ordering::Greater
            &&& begins_with_number(p, m) && begins_with_number(q, n) && x == y && text::text_lt(
                p.skip(m),
                q.skip(n),
            ) ==> version::version_order(a, b) == Ordering::Less && version::version_order(b, a)
                == Ordering::Greater
            &&& is_word(p) && begins_with_number(q, n) ==> version::version_order(a, b)
                == Ordering::Less && version::version_order(b, a) == Ordering::Greater
            &&& is_word(p) && is_word(q) && text::text_lt(p, q) ==> version::version_order(a, b)
                == Ordering::Less && version::version_order(b, a) == Ordering::Greater
        }),
{
    let p = text::split(a, '.')[i];
    let q = text::split(b, '.')[i];
    let x = version::keys(a).skip(i);
    let y = version::keys(b).skip(i);
    lemma_agree(a, b, i);
    assert(x[0] == version::segment_key(p));
    assert(y[0] == version::segment_key(q));
    version::lemma_version_trichotomy(a, b);
    if begins_with_number(p, m) {
        lemma_number_key(p, m);
    }
    if begins_with_number(q, n) {
        lemma_number_key(q, n);
    }
    if is_word(p) {
        lemma_word_key(p);
        text::lemma_text_lt_irreflexive(p);
    }
    if is_word(q) {
        lemma_word_key(q);
    }
    text::lemma_text_lt_irreflexive(p.skip(m));
}

/// A version that goes on where another ends is newer: `1.0` is older than `1.0.0`.
pub proof fn lemma_longer_is_newer(a: Text, b: Text, n: int)
    requires
        text::split(a, '.').len() == n,
        agree_before(a, b, n),
        n < text::split(b, '.').len(),
    ensures
        version::version_order(a, b) == Ordering::Less,
        version::version_order(b, a) == Ordering::Greater,
{
    lemma_agree(a, b, n);
    version::lemma_version_trichotomy(a, b);
}

/// The order of versions is total: two versions compare equal exactly where they rank the same, the
/// other way round where they are exchanged, and transitively.
pub proof fn lemma_total_order(a: Text, b: Text, c: Text)
    ensures
        (version::version_order(a, b) == Ordering::Equal) == version::version_eq(a, b),
        (version::version_order(a, b) == Ordering::Less) == version::version_lt(a, b),
        (version::version_order(a, b) == Ordering::Less) == (version::version_order(b, a)
            == Ordering::Greater),
        version::version_order(a, b) == Ordering::Less && version::version_order(b, c)
            == Ordering::Less ==> version::version_order(a, c) == Ordering::Less,
        version::version_le(a, b) == (version::version_order(a, b) != Ordering::Greater),
{
    version::lemma_version_trichotomy(a, b);
    if version::version_lt(a, b) && version::version_lt(b, c) {
        version::lemma_version_lt_transitive(a, b, c);
    }
}

/// A version is any text that is not blank.
pub proof fn lemma_valid_version(s: Text)
    ensures
        version::valid_version(s) == (exists|k: int|
            0 <= k < s.len() && !text::is_space(#[trigger] s[k])),
{
    text_laws::lemma_blank(s);
}

/// The operators say of a version and a bound what they say of numbers: how the version compares with
/// the bound decides, and of each operator and its opposite exactly one holds.
pub proof fn lemma_operators(name: Text, v: Text, bound: Text)
    ensures
        ({
            let meets = |op: DepOp|
                dep_constraint::satisfied(DepConstraintView { name, op, version: bound }, v);
            &&& meets(DepOp::Lt) == (version::version_order(v, bound) == Ordering::Less)
            &&& meets(DepOp::Eq) == (version::version_order(v, bound) == Ordering::Equal)
            &&& meets(DepOp::Gt) == (version::version_order(v, bound) == Ordering::Greater)
            &&& meets(DepOp::Le) == (meets(DepOp::Lt) || meets(DepOp::Eq))
            &&& meets(DepOp::Ge) == (meets(DepOp::Gt) || meets(DepOp::Eq))
            &&& meets(DepOp::Le) == !meets(DepOp::Gt)
            &&& meets(DepOp::Ge) == !meets(DepOp::Lt)
            &&& meets(DepOp::Eq) == (meets(DepOp::Le) && meets(DepOp::Ge))
        }),
{
    version::lemma_version_trichotomy(v, bound);
}

/// A constraint on one side of a bound is met by everything further on that side.
pub proof fn lemma_bounds_are_closed(name: Text, v: Text, w: Text, bound: Text)
    requires
        version::version_order(v, w) == Ordering::Less,
    ensures
        ({
            let meets = |op: DepOp, u: Text|
                dep_constraint::satisfied(DepConstraintView { name, op, version: bound }, u);
            &&& meets(DepOp::Le, w) ==> meets(DepOp::Lt, v)
            &&& meets(DepOp::Ge, v) ==> meets(DepOp::Gt, w)
        }),
{
    version::lemma_version_trichotomy(v, bound);
    version::lemma_version_trichotomy(w, bound);
    if version::version_lt(w, bound) {
        version::lemma_version_lt_transitive(v, w, bound);
    }
    if version::version_lt(bound, v) {
        version::lemma_version_lt_transitive(bound, v, w);
    }
    if version::version_eq(w, bound) {
        version::lemma_version_eq_congruent(w, bound, v);
    }
    if version::version_eq(v, bound) {
        version::lemma_version_eq_congruent(v, bound, w);
    }
}

} // verus!
