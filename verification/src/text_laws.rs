//! What the operations on text are for, stated of the texts themselves.

use vstd::prelude::*;
use vstd::string::*;

use crate::text;
use crate::text::Text;

verus! {

/// White space is exactly the characters that Unicode calls so.
pub proof fn lemma_white_space(c: char)
    ensures
        text::is_space(c) == (c == '\t' || c == '\n' || c == '\u{b}' || c == '\u{c}' || c == '\r'
            || c == ' ' || c == '\u{85}' || c == '\u{a0}' || c == '\u{1680}' || c == '\u{2000}'
            || c == '\u{2001}' || c == '\u{2002}' || c == '\u{2003}' || c == '\u{2004}' || c
            == '\u{2005}' || c == '\u{2006}' || c == '\u{2007}' || c == '\u{2008}' || c
            == '\u{2009}' || c == '\u{200a}' || c == '\u{2028}' || c == '\u{2029}' || c
            == '\u{202f}' || c == '\u{205f}' || c == '\u{3000}'),
{
}

proof fn lemma_trimmed_start(s: Text) -> (i: int)
    ensures
        0 <= i <= s.len(),
        text::trimmed_start(s) == s.skip(i),
        forall|k: int| 0 <= k < i ==> text::is_space(#[trigger] s[k]),
        i < s.len() ==> !text::is_space(s[i]),
    decreases s.len(),
{
    if s.len() > 0 && text::is_space(s[0]) {
        let d = s.drop_first();
        let j = lemma_trimmed_start(d);
        assert(d.skip(j) =~= s.skip(j + 1));
        assert forall|k: int| 0 <= k < j + 1 implies text::is_space(#[trigger] s[k]) by {
            if k > 0 {
                assert(d[k - 1] == s[k]);
            }
        }
        if j < d.len() {
            assert(d[j] == s[j + 1]);
        }
        j + 1
    } else {
        assert(s.skip(0) =~= s);
        0
    }
}

proof fn lemma_trimmed_end(s: Text) -> (j: int)
    ensures
        0 <= j <= s.len(),
        text::trimmed_end(s) == s.take(j),
        forall|k: int| j <= k < s.len() ==> text::is_space(#[trigger] s[k]),
        j > 0 ==> !text::is_space(s[j - 1]),
    decreases s.len(),
{
    if s.len() > 0 && text::is_space(s.last()) {
        let d = s.drop_last();
        let j = lemma_trimmed_end(d);
        assert(d.take(j) =~= s.take(j));
        assert forall|k: int| j <= k < s.len() implies text::is_space(#[trigger] s[k]) by {
            if k < d.len() {
                assert(d[k] == s[k]);
            }
        }
        if j > 0 {
            assert(d[j - 1] == s[j - 1]);
        }
        j
    } else {
        assert(s.take(s.len() as int) =~= s);
        s.len() as int
    }
}

/// Trimming takes away the white space at both ends and nothing else: what is left stands from `i` to
/// `j`, only white space stands around it, and it neither begins nor ends with white space.
pub proof fn lemma_trimmed(s: Text) -> (r: (int, int))
    ensures
        0 <= r.0 <= r.1 <= s.len(),
        text::trimmed(s) == s.subrange(r.0, r.1),
        forall|k: int|
            0 <= k < r.0 || r.1 <= k < s.len() ==> text::is_space(#[trigger] s[k]),
        r.0 < r.1 ==> !text::is_space(s[r.0]) && !text::is_space(s[r.1 - 1]),
{
    let i = lemma_trimmed_start(s);
    let t = s.skip(i);
    let j = lemma_trimmed_end(t);
    assert(t.take(j) =~= s.subrange(i, i + j));
    assert forall|k: int| 0 <= k < i || i + j <= k < s.len() implies text::is_space(
        #[trigger] s[k],
    ) by {
        if k >= i {
            assert(t[k - i] == s[k]);
        }
    }
    if j > 0 {
        assert(t[j - 1] == s[i + j - 1]);
        assert(i < s.len());
    }
    (i, i + j)
}

/// Trimming leaves nothing exactly where there is nothing but white space.
pub proof fn lemma_blank(s: Text)
    ensures
        (text::trimmed(s).len() == 0) == (forall|k: int|
            0 <= k < s.len() ==> text::is_space(#[trigger] s[k])),
{
    let (i, j) = lemma_trimmed(s);
    if i < j {
        assert(!text::is_space(s[i]));
    }
}

/// Joining puts the separator between neighbours and nowhere else.
pub proof fn lemma_joined(a: Seq<Text>, b: Seq<Text>, x: Text, sep: Text)
    ensures
        text::joined(Seq::empty(), sep) == Seq::<char>::empty(),
        text::joined(seq![x], sep) == x,
        a.len() > 0 && b.len() > 0 ==> text::joined(a + b, sep) == text::joined(a, sep) + sep
            + text::joined(b, sep),
    decreases b.len(),
{
    if a.len() > 0 && b.len() > 0 {
        let all = a + b;
        assert(all.last() == b.last());
        assert(all.drop_last() =~= a + b.drop_last());
        if b.len() == 1 {
            assert(a + b.drop_last() =~= a);
            assert(b.last() == b[0]);
        } else {
            lemma_joined(a, b.drop_last(), x, sep);
            let front = text::joined(b.drop_last(), sep);
            assert(text::joined(a, sep) + sep + front + sep + b.last() =~= text::joined(a, sep)
                + sep + (front + sep + b.last()));
        }
    }
}

/// Splitting at a character loses nothing and leaves no separator: the pieces, joined by it, are the
/// text again, and none of them holds it. There is one piece more than there are separators.
pub proof fn lemma_split(s: Text, sep: char)
    ensures
        text::joined(text::split(s, sep), seq![sep]) == s,
        text::split(s, sep).len() == 1 + s.filter(|c: char| c == sep).len(),
        forall|i: int, k: int|
            0 <= i < text::split(s, sep).len() && 0 <= k < text::split(s, sep)[i].len()
                ==> #[trigger] text::split(s, sep)[i][k] != sep,
    decreases s.len(),
{
    let pieces = text::split(s, sep);
    let one = seq![sep];
    let is_sep = |c: char| c == sep;
    reveal(Seq::filter);
    if s.len() == 0 {
        assert(pieces =~= seq![Seq::<char>::empty()]);
        assert(text::joined(pieces, one) =~= s);
    } else {
        let d = s.drop_last();
        let front = text::split(d, sep);
        lemma_split(d, sep);
        text::lemma_split_nonempty(d, sep);
        if s.last() == sep {
            assert(pieces =~= front.push(Seq::empty()));
            assert(pieces.drop_last() =~= front);
            assert(text::joined(pieces, one) =~= d + one);
            assert(d + one =~= s);
            assert forall|i: int, k: int|
                0 <= i < pieces.len() && 0 <= k < pieces[i].len() implies #[trigger] pieces[i][k]
                != sep by {
                assert(pieces[i] == front[i]);
            }
        } else {
            let n = front.len() - 1;
            let last = front.last().push(s.last());
            assert(pieces.last() == last);
            assert(pieces.drop_last() =~= front.drop_last());
            if n == 0 {
                assert(text::joined(front, one) == front[0]);
                assert(text::joined(pieces, one) == last);
                assert(last =~= s);
            } else {
                let before = text::joined(front.drop_last(), one);
                assert(text::joined(pieces, one) == before + one + last);
                assert(before + one + last =~= (before + one + front.last()).push(s.last()));
                assert(d.push(s.last()) =~= s);
            }
            assert forall|i: int, k: int|
                0 <= i < pieces.len() && 0 <= k < pieces[i].len() implies #[trigger] pieces[i][k]
                != sep by {
                if i < n {
                    assert(pieces[i] == front[i]);
                } else if k < front.last().len() {
                    assert(pieces[i][k] == front[n][k]);
                }
            }
        }
    }
}

/// Pieces without the separator are what splitting their joined text gives.
pub proof fn lemma_split_of_pieces(pieces: Seq<Text>, sep: char)
    requires
        pieces.len() > 0,
        forall|i: int, k: int|
            0 <= i < pieces.len() && 0 <= k < pieces[i].len() ==> #[trigger] pieces[i][k] != sep,
    ensures
        text::split(text::joined(pieces, seq![sep]), sep) == pieces,
    decreases pieces.len(),
{
    let one = seq![sep];
    let last = pieces.last();
    let n = pieces.len() - 1;
    assert forall|k: int| 0 <= k < last.len() implies #[trigger] last[k] != sep by {
        assert(pieces[n][k] == last[k]);
    }
    if pieces.len() == 1 {
        lemma_split_grown(Seq::empty(), last, sep);
        assert(Seq::<char>::empty() + last =~= last);
        assert(text::split(Seq::empty(), sep) =~= seq![Seq::<char>::empty()]);
        assert(text::split(last, sep) =~= pieces);
    } else {
        let front = pieces.drop_last();
        assert forall|i: int, k: int|
            0 <= i < front.len() && 0 <= k < front[i].len() implies #[trigger] front[i][k] != sep by {
            assert(front[i][k] == pieces[i][k]);
        }
        lemma_split_of_pieces(front, sep);
        let head = text::joined(front, one) + one;
        assert(head.drop_last() =~= text::joined(front, one));
        assert(head.last() == sep);
        lemma_split_grown(head, last, sep);
        let split = text::split(head, sep);
        assert(split =~= front.push(Seq::empty()));
        assert(text::split(head + last, sep) =~= pieces);
    }
}

/// Characters other than the separator go to the last piece.
proof fn lemma_split_grown(s: Text, more: Text, sep: char)
    requires
        forall|k: int| 0 <= k < more.len() ==> #[trigger] more[k] != sep,
    ensures
        text::split(s + more, sep) == text::split(s, sep).update(
            text::split(s, sep).len() - 1,
            text::split(s, sep).last() + more,
        ),
    decreases more.len(),
{
    let pieces = text::split(s, sep);
    text::lemma_split_nonempty(s, sep);
    if more.len() == 0 {
        assert(s + more =~= s);
        assert(pieces.last() + more =~= pieces.last());
        assert(pieces.update(pieces.len() - 1, pieces.last()) =~= pieces);
    } else {
        let d = more.drop_last();
        assert forall|k: int| 0 <= k < d.len() implies #[trigger] d[k] != sep by {
            assert(d[k] == more[k]);
        }
        lemma_split_grown(s, d, sep);
        assert((s + more).drop_last() =~= s + d);
        assert((s + more).last() == more.last());
        assert(more.last() == more[more.len() - 1]);
        assert((pieces.last() + d).push(more.last()) =~= pieces.last() + more);
        assert(text::split(s + more, sep) =~= pieces.update(
            pieces.len() - 1,
            pieces.last() + more,
        ));
    }
}

/// Lines end in `\n` or `\r\n`: the first line of a text is what stands before the first of these, and
/// what stands after it is read on. A text without any is one line, the empty text none.
pub proof fn lemma_lines(line: Text, rest: Text)
    requires
        forall|k: int| 0 <= k < line.len() ==> #[trigger] line[k] != '\n',
    ensures
        text::lines(Seq::empty()) == Seq::<Text>::empty(),
        line.len() > 0 ==> text::lines(line) == seq![line],
        line.len() > 0 && line.last() == '\r' ==> text::lines(line + seq!['\n'] + rest) == seq![
            line.drop_last(),
        ] + text::lines(rest),
        line.len() == 0 || line.last() != '\r' ==> text::lines(line + seq!['\n'] + rest) == seq![
            line,
        ] + text::lines(rest),
{
    let nl = seq!['\n'];
    let pieces = text::split(rest, '\n');
    lemma_split(rest, '\n');
    let all = seq![line] + pieces;
    assert forall|i: int, k: int|
        0 <= i < all.len() && 0 <= k < all[i].len() implies #[trigger] all[i][k] != '\n' by {
        if i > 0 {
            assert(all[i][k] == pieces[i - 1][k]);
        }
    }
    lemma_joined(seq![line], pieces, line, nl);
    lemma_split_of_pieces(all, '\n');
    assert(text::split(line + nl + rest, '\n') == all);
    assert(all.last() == pieces.last());
    let first = if line.len() > 0 && line.last() == '\r' {
        line.drop_last()
    } else {
        line
    };
    assert(text::lines(line + nl + rest) =~= seq![first] + text::lines(rest));
    lemma_joined(Seq::empty(), Seq::empty(), line, nl);
    let one = seq![line];
    assert forall|i: int, k: int|
        0 <= i < one.len() && 0 <= k < one[i].len() implies #[trigger] one[i][k] != '\n' by {
        assert(one[i][k] == line[k]);
    }
    lemma_split_of_pieces(one, '\n');
    assert(text::split(line, '\n') == one);
    if line.len() > 0 {
        assert(text::lines(line) =~= seq![line]);
    }
    let empty = Seq::<char>::empty();
    assert(text::split(empty, '\n') =~= seq![empty]);
    assert(text::lines(empty) =~= Seq::<Text>::empty());
}

/// Splitting a text once parts it at the first place where the pattern stands, and nowhere else; it
/// fails exactly where the pattern stands nowhere.
pub proof fn lemma_split_once(s: Text, pat: Text, x: Text, y: Text)
    ensures
        match text::split_once(s, pat) {
            Some((a, b)) => s == a + pat + b && (s == x + pat + y ==> a.len() <= x.len()),
            None => s != x + pat + y,
        },
        s == x + pat + y ==> text::contains_text(s, pat),
        text::contains_text(s, pat) == (text::split_once(s, pat) is Some),
{
    text::lemma_find(s, pat);
    if s == x + pat + y {
        let n = x.len() as int;
        assert(s.subrange(n, n + pat.len()) =~= pat);
        assert(text::occurs_at(s, pat, n));
    }
    if let Some(i) = text::find(s, pat) {
        let i = i as int;
        assert(s =~= s.take(i) + s.subrange(i, i + pat.len()) + s.skip(i + pat.len()));
    }
}

/// Splitting at a text loses nothing, and leaves the text in no piece.
pub proof fn lemma_split_text(s: Text, pat: Text)
    requires
        pat.len() > 0,
    ensures
        text::split_text(s, pat).len() > 0,
        text::joined(text::split_text(s, pat), pat) == s,
        forall|i: int|
            0 <= i < text::split_text(s, pat).len() ==> !text::contains_text(
                #[trigger] text::split_text(s, pat)[i],
                pat,
            ),
    decreases s.len(),
{
    let pieces = text::split_text(s, pat);
    text::lemma_find(s, pat);
    match text::find(s, pat) {
        Some(i) => {
            let i = i as int;
            let a = s.take(i);
            let b = s.skip(i + pat.len());
            lemma_split_text(b, pat);
            let rest = text::split_text(b, pat);
            lemma_joined(seq![a], rest, a, pat);
            assert(s =~= a + s.subrange(i, i + pat.len()) + b);
            assert(!text::contains_text(a, pat)) by {
                if text::contains_text(a, pat) {
                    let j = choose|j: int| text::occurs_at(a, pat, j);
                    assert(a.subrange(j, j + pat.len()) =~= s.subrange(j, j + pat.len()));
                    assert(text::occurs_at(s, pat, j));
                }
            }
            assert forall|k: int| 0 <= k < pieces.len() implies !text::contains_text(
                #[trigger] pieces[k],
                pat,
            ) by {
                if k > 0 {
                    assert(pieces[k] == rest[k - 1]);
                }
            }
        },
        None => {
            lemma_joined(Seq::empty(), Seq::empty(), s, pat);
        },
    }
}

/// Replacing changes the characters that are to be replaced, each in its place, and no others.
pub proof fn lemma_replaced(s: Text, from: char, to: char, i: int)
    requires
        0 <= i < s.len(),
    ensures
        text::replaced(s, from, to).len() == s.len(),
        s[i] == from ==> text::replaced(s, from, to)[i] == to,
        s[i] != from ==> text::replaced(s, from, to)[i] == s[i],
{
}

/// A path below a directory is the directory, one slash and the path.
pub proof fn lemma_path_join(base: Text, rel: Text)
    ensures
        base.len() > 0 && base.last() != '/' ==> text::path_join(base, rel) == base + seq!['/'] + rel,
        text::path_join(base + seq!['/'], rel) == base + seq!['/'] + rel,
        text::path_join(Seq::empty(), rel) == rel,
{
    reveal_strlit("/");
    assert("/"@ =~= seq!['/']);
    assert((base + seq!['/']).last() == '/');
    assert(Seq::<char>::empty() + rel =~= rel);
}

/// A string comes before another exactly where, at the first place at which they differ, it has the
/// smaller character or is at its end.
pub proof fn lemma_text_order(a: Text, b: Text)
    ensures
        text::text_lt(a, b) == (exists|k: int|
            0 <= k <= a.len() && k < b.len() && a.take(k) == #[trigger] b.take(k) && (k == a.len()
                || a[k] < b[k])),
    decreases a.len(),
{
    if text::text_lt(a, b) {
        if a.len() == 0 {
            assert(a.take(0) =~= b.take(0));
        } else if a[0] == b[0] {
            let x = a.drop_first();
            let y = b.drop_first();
            lemma_text_order(x, y);
            let k = choose|k: int|
                0 <= k <= x.len() && k < y.len() && x.take(k) == #[trigger] y.take(k) && (k
                    == x.len() || x[k] < y[k]);
            assert(a.take(k + 1) =~= seq![a[0]] + x.take(k));
            assert(b.take(k + 1) =~= seq![b[0]] + y.take(k));
            assert(a.take(k + 1) == b.take(k + 1));
            if k < x.len() {
                assert(x[k] == a[k + 1] && y[k] == b[k + 1]);
            }
        } else {
            assert(a.take(0) =~= b.take(0));
        }
    }
    if exists|k: int|
        0 <= k <= a.len() && k < b.len() && a.take(k) == #[trigger] b.take(k) && (k == a.len()
            || a[k] < b[k]) {
        let k = choose|k: int|
            0 <= k <= a.len() && k < b.len() && a.take(k) == #[trigger] b.take(k) && (k == a.len()
                || a[k] < b[k]);
        if k > 0 {
            assert(a.take(k)[0] == a[0] && b.take(k)[0] == b[0]);
            let x = a.drop_first();
            let y = b.drop_first();
            assert(x.take(k - 1) =~= a.take(k).drop_first());
            assert(y.take(k - 1) =~= b.take(k).drop_first());
            assert(x.take(k - 1) == y.take(k - 1));
            if k < a.len() {
                assert(x[k - 1] == a[k] && y[k - 1] == b[k]);
            }
            lemma_text_order(x, y);
        }
    }
}

/// The value of a text of decimal digits, from its first digit on.
pub open spec fn value_of(digits: Text) -> nat
    decreases digits.len(),
{
    if digits.len() == 0 {
        0
    } else {
        value_of(digits.drop_last()) * 10 + ("0123456789"@.index_of(digits.last())) as nat
    }
}

proof fn lemma_digit(n: int)
    requires
        0 <= n < 10,
    ensures
        text::digit_char(n) == "0123456789"@[n],
        "0123456789"@.index_of(text::digit_char(n)) == n,
{
    reveal_strlit("0123456789");
    let all = "0123456789"@;
    assert(all[0] == '0' && all[1] == '1' && all[2] == '2' && all[3] == '3' && all[4] == '4');
    assert(all[5] == '5' && all[6] == '6' && all[7] == '7' && all[8] == '8' && all[9] == '9');
    let c = text::digit_char(n);
    assert(n == 0 || n == 1 || n == 2 || n == 3 || n == 4 || n == 5 || n == 6 || n == 7 || n == 8
        || n == 9);
    assert(all[n] == c);
    let i = all.index_of(c);
    assert(0 <= i < all.len() && all[i] == c) by {
        assert(all.contains(c));
    }
    assert(i == 0 || i == 1 || i == 2 || i == 3 || i == 4 || i == 5 || i == 6 || i == 7 || i == 8
        || i == 9);
}

/// A number is written in decimal digits that have its value, without a leading zero.
pub proof fn lemma_decimal(n: nat)
    ensures
        value_of(text::decimal(n)) == n,
        text::decimal(n).len() > 0,
        forall|i: int|
            0 <= i < text::decimal(n).len() ==> '0' <= #[trigger] text::decimal(n)[i] <= '9',
        text::decimal(n).len() > 1 ==> text::decimal(n)[0] != '0',
    decreases n,
{
    let d = text::decimal(n);
    if n < 10 {
        lemma_digit(n as int);
        assert(d.drop_last() =~= Seq::empty());
        assert(d.last() == d[0]);
        reveal_with_fuel(value_of, 2);
        assert(value_of(d) == n);
    } else {
        lemma_decimal(n / 10);
        lemma_digit((n % 10) as int);
        let front = text::decimal(n / 10);
        assert(d.drop_last() =~= front);
        assert(value_of(d) == (n / 10) * 10 + n % 10);
        assert forall|i: int| 0 <= i < d.len() implies '0' <= #[trigger] d[i] <= '9' by {
            if i < front.len() {
                assert(d[i] == front[i]);
            }
        }
        if front.len() == 1 {
            assert(front[0] == d[0]);
            if n / 10 >= 10 {
                lemma_decimal(n / 100);
                assert(text::decimal(n / 10).len() == text::decimal(n / 10 / 10).len() + 1);
                lemma_decimal(n / 10 / 10);
            }
            lemma_digit((n / 10) as int);
        } else {
            assert(front[0] == d[0]);
        }
    }
}

/// The hexadecimal text of bytes holds for each byte, in its place, the digits of its halves.
pub proof fn lemma_hex_digits(bytes: Seq<u8>, i: int)
    requires
        0 <= i < bytes.len(),
    ensures
        text::hex(bytes).len() == 2 * bytes.len(),
        text::hex(bytes)[2 * i] == "0123456789abcdef"@[bytes[i] as int / 16],
        text::hex(bytes)[2 * i + 1] == "0123456789abcdef"@[bytes[i] as int % 16],
    decreases bytes.len(),
{
    text::lemma_hex(bytes);
    let d = bytes.drop_last();
    text::lemma_hex(d);
    if i < d.len() {
        lemma_hex_digits(d, i);
        assert(d[i] == bytes[i]);
        assert(text::hex(bytes)[2 * i] == text::hex(d)[2 * i]);
        assert(text::hex(bytes)[2 * i + 1] == text::hex(d)[2 * i + 1]);
    } else {
        lemma_hex_digit(bytes[i] as int / 16);
        lemma_hex_digit(bytes[i] as int % 16);
    }
}

pub(crate) proof fn lemma_hex_digit(n: int)
    requires
        0 <= n < 16,
    ensures
        text::hex_char(n) == "0123456789abcdef"@[n],
{
    reveal_strlit("0123456789abcdef");
    let all = "0123456789abcdef"@;
    assert(all[0] == '0' && all[1] == '1' && all[2] == '2' && all[3] == '3' && all[4] == '4');
    assert(all[5] == '5' && all[6] == '6' && all[7] == '7' && all[8] == '8' && all[9] == '9');
    assert(all[10] == 'a' && all[11] == 'b' && all[12] == 'c' && all[13] == 'd' && all[14] == 'e');
    assert(all[15] == 'f');
    assert(n == 0 || n == 1 || n == 2 || n == 3 || n == 4 || n == 5 || n == 6 || n == 7 || n == 8
        || n == 9 || n == 10 || n == 11 || n == 12 || n == 13 || n == 14 || n == 15);
}

/// The lowercase of an ASCII text has for each capital letter its small one, and every other
/// character as it is.
pub proof fn lemma_lowered(s: Text, i: int)
    requires
        forall|k: int| 0 <= k < s.len() ==> '\0' <= #[trigger] s[k] <= '\u{7f}',
        0 <= i < s.len(),
    ensures
        text::lowered(s).len() == s.len(),
        forall|k: int|
            0 <= k < 26 && s[i] == "ABCDEFGHIJKLMNOPQRSTUVWXYZ"@[k] ==> text::lowered(s)[i]
                == #[trigger] "abcdefghijklmnopqrstuvwxyz"@[k],
        !('A' <= s[i] <= 'Z') ==> text::lowered(s)[i] == s[i],
        !('A' <= text::lowered(s)[i] <= 'Z'),
{
    reveal_strlit("ABCDEFGHIJKLMNOPQRSTUVWXYZ");
    reveal_strlit("abcdefghijklmnopqrstuvwxyz");
    let a = "ABCDEFGHIJKLMNOPQRSTUVWXYZ"@;
    let b = "abcdefghijklmnopqrstuvwxyz"@;
    assert(vstd::utf8::is_ascii_chars(s));
    assert(a[0] == 'A' && a[1] == 'B' && a[2] == 'C' && a[3] == 'D' && a[4] == 'E' && a[5] == 'F');
    assert(a[6] == 'G' && a[7] == 'H' && a[8] == 'I' && a[9] == 'J' && a[10] == 'K' && a[11] == 'L');
    assert(a[12] == 'M' && a[13] == 'N' && a[14] == 'O' && a[15] == 'P' && a[16] == 'Q');
    assert(a[17] == 'R' && a[18] == 'S' && a[19] == 'T' && a[20] == 'U' && a[21] == 'V');
    assert(a[22] == 'W' && a[23] == 'X' && a[24] == 'Y' && a[25] == 'Z');
    assert(b[0] == 'a' && b[1] == 'b' && b[2] == 'c' && b[3] == 'd' && b[4] == 'e' && b[5] == 'f');
    assert(b[6] == 'g' && b[7] == 'h' && b[8] == 'i' && b[9] == 'j' && b[10] == 'k' && b[11] == 'l');
    assert(b[12] == 'm' && b[13] == 'n' && b[14] == 'o' && b[15] == 'p' && b[16] == 'q');
    assert(b[17] == 'r' && b[18] == 's' && b[19] == 't' && b[20] == 'u' && b[21] == 'v');
    assert(b[22] == 'w' && b[23] == 'x' && b[24] == 'y' && b[25] == 'z');
    assert forall|k: int| 0 <= k < 26 && s[i] == a[k] implies text::lowered(s)[i]
        == #[trigger] b[k] by {
        assert(k == 0 || k == 1 || k == 2 || k == 3 || k == 4 || k == 5 || k == 6 || k == 7 || k
            == 8 || k == 9 || k == 10 || k == 11 || k == 12 || k == 13 || k == 14 || k == 15 || k
            == 16 || k == 17 || k == 18 || k == 19 || k == 20 || k == 21 || k == 22 || k == 23 || k
            == 24 || k == 25);
    }
}

} // verus!
