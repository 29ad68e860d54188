//! Paths as texts, with `/` between their parts.

use vstd::prelude::*;
use vstd::string::*;

use crate::text;
use crate::text::Text;

verus! {

/// Whether a piece of a path counts: it is not empty and not `.`.
pub open spec fn counts() -> spec_fn(Text) -> bool {
    |piece: Text| piece.len() > 0 && piece != "."@
}

/// What a path begins with: the root, the current directory, or nothing.
pub open spec fn beginning(path: Text) -> Seq<Text> {
    let first = text::split(path, '/')[0];
    if path.len() > 0 && path[0] == '/' {
        seq!["/"@]
    } else if first == "."@ {
        seq!["."@]
    } else {
        Seq::empty()
    }
}

/// The parts of a path. Repeated and trailing separators do not count, nor does `.` except at the
/// beginning.
pub open spec fn parts(path: Text) -> Seq<Text> {
    beginning(path) + text::split(path, '/').filter(counts())
}

/// Whether `path` is `base` or lies below it.
pub open spec fn lies_in(path: Text, base: Text) -> bool {
    parts(base).is_prefix_of(parts(path))
}

/// The parts of a path.
pub fn parts_of(path: &str) -> (r: Vec<String>)
    ensures
        r.deep_view() == parts(path@),
{
    let pieces = text::split_chars(path, '/');
    let ghost all = pieces.deep_view();
    proof {
        text::lemma_split_nonempty(path@, '/');
        reveal(Seq::filter);
    }
    let mut out: Vec<String> = Vec::new();
    assert(pieces@[0]@ == all[0]);
    if !path.is_empty() && path.get_char(0) == '/' {
        out.push("/".to_owned());
    } else if text::same_text(pieces[0].as_str(), ".") {
        out.push(".".to_owned());
    }
    assert(out.deep_view() =~= beginning(path@));
    let ghost start = out.deep_view();
    let mut i: usize = 0;
    assert(out.deep_view() =~= start + all.take(0).filter(counts()));
    while i < pieces.len()
        invariant
            i <= pieces@.len(),
            all == pieces.deep_view(),
            out.deep_view() == start + all.take(i as int).filter(counts()),
        decreases pieces@.len() - i,
    {
        let ghost before = out.deep_view();
        assert(all[i as int] == pieces@[i as int]@);
        assert(all.take(i + 1).drop_last() == all.take(i as int));
        proof {
            reveal(Seq::filter);
        }
        if !pieces[i].as_str().is_empty() && !text::same_text(pieces[i].as_str(), ".") {
            out.push(pieces[i].clone());
            assert(out.deep_view() =~= before.push(all[i as int]));
            assert(out.deep_view() =~= start + all.take(i + 1).filter(counts()));
        }
        i += 1;
    }
    assert(all.take(all.len() as int) == all);
    out
}

/// Whether `path` is `base` or lies below it.
pub fn is_in(path: &str, base: &str) -> (r: bool)
    ensures
        r == lies_in(path@, base@),
{
    let x = parts_of(path);
    let y = parts_of(base);
    let ghost a = x.deep_view();
    let ghost b = y.deep_view();
    if y.len() > x.len() {
        return false;
    }
    let mut i: usize = 0;
    while i < y.len()
        invariant
            i <= y@.len() <= x@.len(),
            a == x.deep_view(),
            b == y.deep_view(),
            a == parts(path@),
            b == parts(base@),
            forall|j: int| 0 <= j < i ==> a[j] == b[j],
        decreases y@.len() - i,
    {
        assert(a[i as int] == x@[i as int]@ && b[i as int] == y@[i as int]@);
        if !text::same_text(x[i].as_str(), y[i].as_str()) {
            assert(a.subrange(0, b.len() as int)[i as int] != b[i as int]);
            return false;
        }
        i += 1;
    }
    assert(b =~= a.subrange(0, b.len() as int));
    true
}

/// Splitting a text at a separator between two others gives the pieces of both.
pub proof fn lemma_split_joined(a: Text, sep: char, b: Text)
    ensures
        text::split(a + seq![sep] + b, sep) == text::split(a, sep) + text::split(b, sep),
    decreases b.len(),
{
    let whole = a + seq![sep] + b;
    text::lemma_split_nonempty(a, sep);
    if b.len() == 0 {
        assert(whole.drop_last() =~= a);
        assert(whole.last() == sep);
        assert(text::split(whole, sep) =~= text::split(a, sep) + text::split(b, sep));
    } else {
        let d = b.drop_last();
        lemma_split_joined(a, sep, d);
        text::lemma_split_nonempty(d, sep);
        assert(whole.drop_last() =~= a + seq![sep] + d);
        assert(whole.last() == b.last());
        assert(text::split(whole, sep) =~= text::split(a, sep) + text::split(b, sep));
    }
}

/// What follows a directory and a separator lies in the directory.
pub proof fn lemma_below(base: Text, rest: Text)
    requires
        base.len() > 0,
    ensures
        lies_in(base + "/"@ + rest, base),
{
    reveal_strlit("/");
    assert("/"@ =~= seq!['/']);
    let path = base + "/"@ + rest;
    lemma_split_joined(base, '/', rest);
    text::lemma_split_nonempty(base, '/');
    Seq::filter_distributes_over_add(text::split(base, '/'), text::split(rest, '/'), counts());
    assert(path[0] == base[0]);
    assert(text::split(path, '/')[0] == text::split(base, '/')[0]);
    assert(parts(path) =~= parts(base) + text::split(rest, '/').filter(counts()));
    assert(parts(base) =~= parts(path).subrange(0, parts(base).len() as int));
}

} // verus!
