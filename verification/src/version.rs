//! Version: orderable string (dotted-numeric with optional suffix).

use std::cmp::Ordering;

use vstd::prelude::*;
use vstd::string::*;

use crate::text;
use crate::text::Text;
use crate::views;

verus! {

/// What a dotted segment is ordered by: a segment that begins with a number (of at most 64 bits)
/// by that number and what follows it, any other segment by its text.
pub enum SegmentKey {
    Word(Text),
    Number(nat, Text),
}

/// How many digits `s` begins with.
pub open spec fn leading_digits(s: Text) -> nat
    decreases s.len(),
{
    if s.len() > 0 && text::is_digit(s[0]) {
        1 + leading_digits(s.drop_first())
    } else {
        0
    }
}

/// The number that the decimal digits in `s` write.
pub open spec fn number(s: Text) -> nat
    decreases s.len(),
{
    if s.len() == 0 {
        0
    } else {
        number(s.drop_last()) * 10 + ((s.last() as u32) - ('0' as u32)) as nat
    }
}

/// What the segment `s` is ordered by.
pub open spec fn segment_key(s: Text) -> SegmentKey {
    let n = leading_digits(s) as int;
    if n == 0 || number(s.take(n)) > u64::MAX {
        SegmentKey::Word(s)
    } else {
        SegmentKey::Number(number(s.take(n)), s.skip(n))
    }
}

/// The order of segments: words before numbers, numbers by value and then by what follows them.
pub open spec fn key_lt(a: SegmentKey, b: SegmentKey) -> bool {
    match (a, b) {
        (SegmentKey::Word(x), SegmentKey::Word(y)) => text::text_lt(x, y),
        (SegmentKey::Word(_), SegmentKey::Number(_, _)) => true,
        (SegmentKey::Number(_, _), SegmentKey::Word(_)) => false,
        (SegmentKey::Number(m, x), SegmentKey::Number(n, y)) => m < n || (m == n && text::text_lt(
            x,
            y,
        )),
    }
}

/// The keys of the dotted segments of a version.
pub open spec fn keys(s: Text) -> Seq<SegmentKey> {
    text::split(s, '.').map_values(|segment: Text| segment_key(segment))
}

/// The order of key sequences: by the first place in which they differ, a proper prefix first.
pub open spec fn keys_lt(a: Seq<SegmentKey>, b: Seq<SegmentKey>) -> bool
    decreases a.len(),
{
    if b.len() == 0 {
        false
    } else if a.len() == 0 {
        true
    } else if a[0] == b[0] {
        keys_lt(a.drop_first(), b.drop_first())
    } else {
        key_lt(a[0], b[0])
    }
}

/// Whether version `a` is older than version `b`.
pub open spec fn version_lt(a: Text, b: Text) -> bool {
    keys_lt(keys(a), keys(b))
}

/// Whether two versions rank the same: `1.0` and `1.00` do.
pub open spec fn version_eq(a: Text, b: Text) -> bool {
    keys(a) == keys(b)
}

/// Whether version `a` is not newer than version `b`.
pub open spec fn version_le(a: Text, b: Text) -> bool {
    version_lt(a, b) || version_eq(a, b)
}

/// The versions: any text that is not blank.
pub open spec fn valid_version(s: Text) -> bool {
    text::trimmed(s).len() > 0
}

/// How version `a` compares with version `b`.
pub open spec fn version_order(a: Text, b: Text) -> Ordering {
    if version_lt(a, b) {
        Ordering::Less
    } else if version_eq(a, b) {
        Ordering::Equal
    } else {
        Ordering::Greater
    }
}

/// Orderable version: dotted-numeric segments, then optional lexicographic suffix.
#[derive(Debug, Eq, PartialEq)]
pub struct Version(String);

impl View for Version {
    type V = Text;

    closed spec fn view(&self) -> Text {
        self.0@
    }
}

impl DeepView for Version {
    type V = Text;

    open spec fn deep_view(&self) -> Text {
        self@
    }
}

impl Clone for Version {
    fn clone(&self) -> (r: Self)
        ensures
            r@ == self@,
    {
        proof {
            use_type_invariant(self);
        }
        Version(self.0.clone())
    }
}

/// Error when version string is empty.
#[derive(Clone, Debug, Eq, PartialEq)]
pub struct EmptyVersion;

impl DeepView for EmptyVersion {
    type V = ();

    open spec fn deep_view(&self) -> () {
        ()
    }
}

impl EmptyVersion {
    /// The error in words.
    pub fn to_string(&self) -> (r: String)
        ensures
            r@ == "version must be non-empty"@,
    {
        "version must be non-empty".to_owned()
    }
}

impl Version {
    #[verifier::type_invariant]
    spec fn well_formed(self) -> bool {
        valid_version(self.0@)
    }

    /// Creates a version from a non-empty string.
    pub fn new(s: &str) -> (r: Result<Self, EmptyVersion>)
        ensures
            views::result_view(r) == if valid_version(s@) {
                Ok::<Text, ()>(s@)
            } else {
                Err(())
            },
    {
        if text::is_blank(s) {
            return Err(EmptyVersion);
        }
        Ok(Version(s.to_owned()))
    }

    /// Returns the version string.
    pub fn as_str(&self) -> (r: &str)
        ensures
            r@ == self@,
            valid_version(self@),
    {
        proof {
            use_type_invariant(self);
        }
        self.0.as_str()
    }

    /// The version as an owned string.
    pub fn to_string(&self) -> (r: String)
        ensures
            r@ == self@,
    {
        self.0.clone()
    }

    /// Compares two versions: numeric segments first (by value), then remainder lexicographically.
    pub fn cmp(&self, other: &Self) -> (r: Ordering)
        ensures
            r == version_order(self@, other@),
    {
        proof {
            lemma_version_trichotomy(self@, other@);
        }
        if self.precedes(other) {
            Ordering::Less
        } else if other.precedes(self) {
            Ordering::Greater
        } else {
            Ordering::Equal
        }
    }

    /// Whether this version is older than `other`.
    pub fn precedes(&self, other: &Self) -> (r: bool)
        ensures
            r == version_lt(self@, other@),
    {
        segments_precede(&segments_of(self.0.as_str()), &segments_of(other.0.as_str()))
    }

    /// Whether this version ranks the same as `other`.
    pub fn ranks_with(&self, other: &Self) -> (r: bool)
        ensures
            r == version_eq(self@, other@),
    {
        proof {
            lemma_version_trichotomy(self@, other@);
        }
        !self.precedes(other) && !other.precedes(self)
    }
}

impl PartialOrd for Version {
    fn partial_cmp(&self, other: &Self) -> (r: Option<Ordering>) {
        Some(self.cmp(other))
    }
}

impl vstd::std_specs::cmp::PartialOrdSpecImpl for Version {
    open spec fn obeys_partial_cmp_spec() -> bool {
        true
    }

    open spec fn partial_cmp_spec(&self, other: &Self) -> Option<Ordering> {
        Some(version_order(self@, other@))
    }
}

/// A segment split into its leading number, if it has one, and the rest.
struct Segment {
    number: Option<u64>,
    rest: String,
}

spec fn segment_view(s: Segment) -> SegmentKey {
    match s.number {
        Some(n) => SegmentKey::Number(n as nat, s.rest@),
        None => SegmentKey::Word(s.rest@),
    }
}

spec fn segment_views(v: Seq<Segment>) -> Seq<SegmentKey> {
    v.map_values(|s: Segment| segment_view(s))
}

pub(crate) proof fn lemma_leading_digits(s: Text, i: nat)
    requires
        i <= s.len(),
        forall|j: int| 0 <= j < i ==> text::is_digit(#[trigger] s[j]),
        i == s.len() || !text::is_digit(s[i as int]),
    ensures
        leading_digits(s) == i,
    decreases i,
{
    if i > 0 {
        assert(text::is_digit(s[0]));
        assert forall|j: int| 0 <= j < i - 1 implies text::is_digit(
            #[trigger] s.drop_first()[j],
        ) by {
            assert(s.drop_first()[j] == s[j + 1]);
        }
        if i < s.len() {
            assert(s.drop_first()[i - 1] == s[i as int]);
        }
        lemma_leading_digits(s.drop_first(), (i - 1) as nat);
    }
}

/// A longer run of digits does not write a smaller number.
proof fn lemma_number_grows(s: Text, i: int, j: int)
    requires
        0 <= i <= j <= s.len(),
    ensures
        number(s.take(i)) <= number(s.take(j)),
    decreases j - i,
{
    if i < j {
        lemma_number_grows(s, i, j - 1);
        assert(s.take(j).drop_last() == s.take(j - 1));
        assert(number(s.take(j)) >= number(s.take(j - 1)) * 10);
    }
}

/// The value of a decimal digit.
fn digit_value(c: char) -> (d: u64)
    requires
        text::is_digit(c),
    ensures
        d == (c as u32) - ('0' as u32),
        d <= 9,
{
    (c as u64) - ('0' as u64)
}

/// Splits a segment into its leading number, if it has one of at most 64 bits, and the rest.
fn split_numeric_prefix(s: &str) -> (r: Segment)
    ensures
        segment_view(r) == segment_key(s@),
{
    let chars = text::chars_of(s);
    let mut i: usize = 0;
    let mut value: Option<u64> = Some(0);
    assert(s@.take(0) == Seq::<char>::empty());
    while i < chars.len() && '0' <= chars[i] && chars[i] <= '9'
        invariant
            i <= chars@.len(),
            chars@ == s@,
            forall|j: int| 0 <= j < i ==> text::is_digit(#[trigger] s@[j]),
            match value {
                Some(n) => n == number(s@.take(i as int)),
                None => number(s@.take(i as int)) > u64::MAX,
            },
        decreases chars@.len() - i,
    {
        let d: u64 = digit_value(chars[i]);
        assert(s@.take(i + 1).drop_last() == s@.take(i as int));
        value = match value {
            Some(n) => {
                if n > u64::MAX / 10 || n * 10 > u64::MAX - d {
                    None
                } else {
                    Some(n * 10 + d)
                }
            },
            None => None,
        };
        i += 1;
    }
    proof {
        lemma_leading_digits(s@, i as nat);
    }
    if i == 0 {
        return Segment { number: None, rest: s.to_owned() };
    }
    match value {
        Some(n) => {
            let rest = text::text_of(&chars, i, chars.len());
            assert(rest@ == s@.skip(i as int));
            Segment { number: Some(n), rest }
        },
        None => Segment { number: None, rest: s.to_owned() },
    }
}

/// The segments of a version.
fn segments_of(s: &str) -> (r: Vec<Segment>)
    ensures
        segment_views(r@) == keys(s@),
{
    let pieces = text::split_chars(s, '.');
    let ghost all = text::split(s@, '.');
    let mut out: Vec<Segment> = Vec::new();
    let mut i: usize = 0;
    while i < pieces.len()
        invariant
            i <= pieces@.len(),
            out@.len() == i,
            pieces.deep_view() == all,
            forall|j: int| 0 <= j < i ==> segment_view(#[trigger] out@[j]) == segment_key(all[j]),
        decreases pieces@.len() - i,
    {
        assert(pieces@[i as int]@ == all[i as int]);
        out.push(split_numeric_prefix(pieces[i].as_str()));
        i += 1;
    }
    assert(segment_views(out@) =~= keys(s@));
    out
}

/// Whether segment `a` comes before segment `b`.
fn segment_precedes(a: &Segment, b: &Segment) -> (r: bool)
    ensures
        r == key_lt(segment_view(*a), segment_view(*b)),
{
    match (a.number, b.number) {
        (Some(m), Some(n)) => m < n || (m == n && text::precedes(
            a.rest.as_str(),
            b.rest.as_str(),
        )),
        (Some(_), None) => false,
        (None, Some(_)) => true,
        (None, None) => text::precedes(a.rest.as_str(), b.rest.as_str()),
    }
}

/// Whether the segments `a` come before the segments `b`.
fn segments_precede(a: &Vec<Segment>, b: &Vec<Segment>) -> (r: bool)
    ensures
        r == keys_lt(segment_views(a@), segment_views(b@)),
{
    let ghost x = segment_views(a@);
    let ghost y = segment_views(b@);
    let mut i: usize = 0;
    assert(x.skip(0) == x && y.skip(0) == y);
    loop
        invariant
            i <= a@.len(),
            i <= b@.len(),
            x == segment_views(a@),
            y == segment_views(b@),
            keys_lt(x, y) == keys_lt(x.skip(i as int), y.skip(i as int)),
        decreases a@.len() - i,
    {
        if i == b.len() {
            return false;
        }
        if i == a.len() {
            return true;
        }
        proof {
            lemma_key_lt_total(x[i as int], y[i as int]);
            lemma_key_lt_irreflexive(x[i as int]);
            lemma_key_lt_asymmetric(x[i as int], y[i as int]);
        }
        if segment_precedes(&a[i], &b[i]) {
            return true;
        }
        if segment_precedes(&b[i], &a[i]) {
            return false;
        }
        assert(x.skip(i as int).drop_first() == x.skip(i + 1));
        assert(y.skip(i as int).drop_first() == y.skip(i + 1));
        i += 1;
    }
}

proof fn lemma_key_lt_irreflexive(a: SegmentKey)
    ensures
        !key_lt(a, a),
{
    match a {
        SegmentKey::Word(x) => text::lemma_text_lt_irreflexive(x),
        SegmentKey::Number(_, x) => text::lemma_text_lt_irreflexive(x),
    }
}

proof fn lemma_key_lt_transitive(a: SegmentKey, b: SegmentKey, c: SegmentKey)
    requires
        key_lt(a, b),
        key_lt(b, c),
    ensures
        key_lt(a, c),
{
    match (a, b, c) {
        (SegmentKey::Word(x), SegmentKey::Word(y), SegmentKey::Word(z)) =>
            text::lemma_text_lt_transitive(x, y, z),
        (SegmentKey::Number(l, x), SegmentKey::Number(m, y), SegmentKey::Number(n, z)) => {
            if l == m && m == n {
                text::lemma_text_lt_transitive(x, y, z);
            }
        },
        _ => {},
    }
}

proof fn lemma_key_lt_asymmetric(a: SegmentKey, b: SegmentKey)
    ensures
        !(key_lt(a, b) && key_lt(b, a)),
{
    if key_lt(a, b) && key_lt(b, a) {
        lemma_key_lt_transitive(a, b, a);
        lemma_key_lt_irreflexive(a);
    }
}

proof fn lemma_key_lt_total(a: SegmentKey, b: SegmentKey)
    ensures
        a == b || key_lt(a, b) || key_lt(b, a),
{
    match (a, b) {
        (SegmentKey::Word(x), SegmentKey::Word(y)) => text::lemma_text_lt_total(x, y),
        (SegmentKey::Number(_, x), SegmentKey::Number(_, y)) => text::lemma_text_lt_total(x, y),
        _ => {},
    }
}

proof fn lemma_keys_lt_irreflexive(a: Seq<SegmentKey>)
    ensures
        !keys_lt(a, a),
    decreases a.len(),
{
    if a.len() > 0 {
        lemma_keys_lt_irreflexive(a.drop_first());
    }
}

proof fn lemma_keys_lt_transitive(
    a: Seq<SegmentKey>,
    b: Seq<SegmentKey>,
    c: Seq<SegmentKey>,
)
    requires
        keys_lt(a, b),
        keys_lt(b, c),
    ensures
        keys_lt(a, c),
    decreases a.len(),
{
    if a.len() > 0 {
        if a[0] == b[0] && b[0] == c[0] {
            lemma_keys_lt_transitive(a.drop_first(), b.drop_first(), c.drop_first());
        } else if a[0] != b[0] && b[0] != c[0] {
            lemma_key_lt_transitive(a[0], b[0], c[0]);
            lemma_key_lt_asymmetric(a[0], b[0]);
        }
    }
}

proof fn lemma_keys_lt_total(a: Seq<SegmentKey>, b: Seq<SegmentKey>)
    ensures
        a == b || keys_lt(a, b) || keys_lt(b, a),
    decreases a.len(),
{
    if a.len() > 0 && b.len() > 0 {
        if a[0] == b[0] {
            lemma_keys_lt_total(a.drop_first(), b.drop_first());
            if a.drop_first() == b.drop_first() {
                assert(a =~= seq![a[0]] + a.drop_first());
                assert(b =~= seq![b[0]] + b.drop_first());
                assert(a =~= b);
            }
        } else {
            lemma_key_lt_total(a[0], b[0]);
        }
    } else if a.len() == 0 && b.len() == 0 {
        assert(a =~= b);
    }
}

/// No version is older than itself.
pub proof fn lemma_version_lt_irreflexive(a: Text)
    ensures
        !version_lt(a, a),
{
    lemma_keys_lt_irreflexive(keys(a));
}

/// Being older is transitive.
pub proof fn lemma_version_lt_transitive(a: Text, b: Text, c: Text)
    requires
        version_lt(a, b),
        version_lt(b, c),
    ensures
        version_lt(a, c),
{
    lemma_keys_lt_transitive(keys(a), keys(b), keys(c));
}

/// Of two versions exactly one of these holds: the first is older, the second is older, or they
/// rank the same.
pub proof fn lemma_version_trichotomy(a: Text, b: Text)
    ensures
        version_lt(a, b) || version_lt(b, a) || version_eq(a, b),
        !(version_lt(a, b) && version_lt(b, a)),
        version_eq(a, b) ==> !version_lt(a, b) && !version_lt(b, a),
{
    lemma_keys_lt_total(keys(a), keys(b));
    lemma_keys_lt_irreflexive(keys(a));
    if version_lt(a, b) && version_lt(b, a) {
        lemma_keys_lt_transitive(keys(a), keys(b), keys(a));
    }
}

/// Versions that rank the same compare alike with every version.
pub proof fn lemma_version_eq_congruent(a: Text, b: Text, c: Text)
    requires
        version_eq(a, b),
    ensures
        version_lt(a, c) == version_lt(b, c),
        version_lt(c, a) == version_lt(c, b),
        version_eq(a, c) == version_eq(b, c),
{
}

} // verus!
