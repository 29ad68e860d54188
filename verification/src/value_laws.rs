//! What names, hashes, constraints, paths and fields of text are, stated of their characters.

use vstd::prelude::*;
use vstd::string::*;

use crate::dep_constraint;
use crate::dep_constraint::{DepConstraintView, DepOp, InvalidDepConstraintView};
use crate::package_name;
use crate::paths;
use crate::prefix;
use crate::prefix::{Found, RootBase};
use crate::source;
use crate::source::{InvalidSourceHashView, SourceHashView};
use crate::storage::cache;
use crate::term;
use crate::text;
use crate::text::Text;
use crate::text_laws;
use crate::version;

verus! {

/// A name of one character is a lowercase letter, a digit, `-` or `_`. No text is no name, and a text
/// is a name exactly if both of its parts are, however it is parted.
pub proof fn lemma_names(a: Text, b: Text, c: char)
    ensures
        !package_name::valid_name(Seq::empty()),
        package_name::valid_name(seq![c]) == (('a' <= c && c <= 'z') || ('0' <= c && c <= '9') || c
            == '-' || c == '_'),
        a.len() > 0 && b.len() > 0 ==> package_name::valid_name(a + b) == (package_name::valid_name(
            a,
        ) && package_name::valid_name(b)),
{
    let one = seq![c];
    assert(one[0] == c);
    if a.len() > 0 && b.len() > 0 {
        let s = a + b;
        if package_name::valid_name(s) {
            assert forall|i: int| 0 <= i < a.len() implies package_name::is_name_char(
                #[trigger] a[i],
            ) by {
                assert(s[i] == a[i]);
            }
            assert forall|i: int| 0 <= i < b.len() implies package_name::is_name_char(
                #[trigger] b[i],
            ) by {
                assert(s[a.len() + i] == b[i]);
            }
        }
    }
}

/// The characters of hexadecimal digits in lower case.
pub open spec fn hex_digit(c: char) -> bool {
    ('0' <= c && c <= '9') || ('a' <= c && c <= 'f')
}

/// A text writes a hash exactly if it is an algorithm and digits with a colon between them, the
/// algorithm being `sha256` or `sha512` and the digits hexadecimal and at least one, in any case and
/// with white space around them.
pub proof fn lemma_hash_parsed(s: Text)
    ensures
        ({
            let r = source::parsed(s);
            &&& r matches Ok(h) ==> {
                &&& h.algorithm == "sha256"@ || h.algorithm == "sha512"@
                &&& h.hex.len() > 0
                &&& forall|i: int| 0 <= i < h.hex.len() ==> hex_digit(#[trigger] h.hex[i])
            }
            &&& r is Err ==> !(exists|a: Text, b: Text| #[trigger] writes_hash(s, a, b))
            &&& r is Ok ==> exists|a: Text, b: Text| #[trigger]
                writes_hash(s, a, b) && r->Ok_0.algorithm == text::lowered(text::trimmed(a))
                    && r->Ok_0.hex == text::lowered(text::trimmed(b))
        }),
{
    reveal_strlit(":");
    assert(":"@ =~= seq![':']);
    assert forall|a: Text, b: Text| #[trigger] writes_hash(s, a, b) implies source::parsed(
        s,
    ) is Ok by {
        reveal_strlit("sha256");
        reveal_strlit("sha512");
        text::lemma_split_once_char(a, ':', b);
        let x = text::lowered(text::trimmed(a));
        let y = text::lowered(text::trimmed(b));
        assert(source::allowed_algorithm(x));
        assert forall|i: int| 0 <= i < y.len() implies text::is_lower_hex(#[trigger] y[i]) by {
            assert(hex_digit(y[i]));
        }
    }
    if let Ok(h) = source::parsed(s) {
        let (a, b) = text::split_once(s, ":"@)->0;
        text_laws::lemma_split_once(s, ":"@, a, b);
        assert(s =~= a + seq![':'] + b);
        assert forall|i: int| 0 <= i < a.len() implies #[trigger] a[i] != ':' by {
            if a[i] == ':' {
                let x = a.take(i);
                let y = a.skip(i + 1) + seq![':'] + b;
                assert(s =~= x + ":"@ + y);
                text_laws::lemma_split_once(s, ":"@, x, y);
            }
        }
        assert forall|i: int| 0 <= i < h.hex.len() implies hex_digit(#[trigger] h.hex[i]) by {
            assert(text::is_lower_hex(h.hex[i]));
        }
        assert(writes_hash(s, a, b));
    }
}

/// Whether the text is `a` and `b` with the first colon between them, and these write an algorithm and
/// digits.
pub open spec fn writes_hash(s: Text, a: Text, b: Text) -> bool {
    let x = text::lowered(text::trimmed(a));
    let y = text::lowered(text::trimmed(b));
    &&& s == a + seq![':'] + b
    &&& forall|i: int| 0 <= i < a.len() ==> #[trigger] a[i] != ':'
    &&& x == "sha256"@ || x == "sha512"@
    &&& y.len() > 0
    &&& forall|i: int| 0 <= i < y.len() ==> hex_digit(#[trigger] y[i])
}

/// The first reason for which a text writes no hash is given: no colon, no algorithm, another
/// algorithm, no digits, something other than digits.
pub proof fn lemma_hash_errors(a: Text, b: Text)
    requires
        forall|i: int| 0 <= i < a.len() ==> #[trigger] a[i] != ':',
    ensures
        source::parsed(a) == Err::<SourceHashView, _>(
            InvalidSourceHashView::MissingColon { value: a },
        ),
        ({
            let s = a + seq![':'] + b;
            let x = text::lowered(text::trimmed(a));
            let y = text::lowered(text::trimmed(b));
            let known = x == "sha256"@ || x == "sha512"@;
            &&& x.len() == 0 ==> source::parsed(s) == Err::<SourceHashView, _>(
                InvalidSourceHashView::EmptyAlgorithm { value: s },
            )
            &&& x.len() > 0 && !known ==> source::parsed(s) == Err::<SourceHashView, _>(
                InvalidSourceHashView::UnknownAlgorithm { value: s, algorithm: x },
            )
            &&& known && y.len() == 0 ==> source::parsed(s) == Err::<SourceHashView, _>(
                InvalidSourceHashView::EmptyHex { value: s },
            )
            &&& known && y.len() > 0 && (exists|i: int|
                0 <= i < y.len() && !hex_digit(#[trigger] y[i])) ==> source::parsed(s) == Err::<
                SourceHashView,
                _,
            >(InvalidSourceHashView::InvalidHex { value: s })
        }),
{
    reveal_strlit(":");
    reveal_strlit("sha256");
    reveal_strlit("sha512");
    assert(":"@ =~= seq![':']);
    text::lemma_split_once_char(a, ':', b);
    let y = text::lowered(text::trimmed(b));
    if exists|i: int| 0 <= i < y.len() && !hex_digit(#[trigger] y[i]) {
        let i = choose|i: int| 0 <= i < y.len() && !hex_digit(#[trigger] y[i]);
        assert(!text::is_lower_hex(y[i]));
    }
    if let Some((x, z)) = text::split_once(a, ":"@) {
        text_laws::lemma_split_once(a, ":"@, x, z);
        assert(a[x.len() as int] == ':');
    }
}

/// The operator with a space on both sides.
pub open spec fn between_spaces(op: DepOp) -> Text {
    match op {
        DepOp::Ge => " >= "@,
        DepOp::Le => " <= "@,
        DepOp::Eq => " = "@,
        DepOp::Gt => " > "@,
        DepOp::Lt => " < "@,
    }
}

/// Whether the operator stands in the text with a space on both sides.
pub open spec fn stands_in(s: Text, op: DepOp) -> bool {
    exists|a: Text, b: Text| s == #[trigger] (a + between_spaces(op) + b)
}

/// What a constraint is read from: a name, an operator and a version in that order, with the operator
/// between spaces and any white space around the rest. Of several operators `>=` counts, or else `<=`,
/// or else `=`, or else `>`.
pub proof fn lemma_constraint_parsed(s: Text, c: DepConstraintView)
    requires
        dep_constraint::parsed(s) == Ok::<_, InvalidDepConstraintView>(c),
    ensures
        exists|a: Text, b: Text|
            text::trimmed(s) == #[trigger] (a + between_spaces(c.op) + b) && c.name == text::trimmed(
                a,
            ) && c.version == text::trimmed(b),
        package_name::valid_name(c.name),
        version::valid_version(c.version),
        stands_in(text::trimmed(s), DepOp::Ge) ==> c.op == DepOp::Ge,
        stands_in(text::trimmed(s), DepOp::Le) ==> c.op == DepOp::Ge || c.op == DepOp::Le,
        stands_in(text::trimmed(s), DepOp::Eq) ==> c.op != DepOp::Gt && c.op != DepOp::Lt,
        stands_in(text::trimmed(s), DepOp::Gt) ==> c.op != DepOp::Lt,
{
    let t = text::trimmed(s);
    let (a, op, b) = dep_constraint::split_operator(t)->0;
    lemma_stands(t, DepOp::Ge);
    lemma_stands(t, DepOp::Le);
    lemma_stands(t, DepOp::Eq);
    lemma_stands(t, DepOp::Gt);
    lemma_stands(t, DepOp::Lt);
    text_laws::lemma_split_once(t, between_spaces(c.op), a, b);
    assert(t == a + between_spaces(c.op) + b);
}

proof fn lemma_stands(t: Text, op: DepOp)
    ensures
        stands_in(t, op) == text::split_once(t, between_spaces(op)) is Some,
{
    let pat = between_spaces(op);
    if stands_in(t, op) {
        let (a, b) = choose|a: Text, b: Text| t == #[trigger] (a + pat + b);
        text_laws::lemma_split_once(t, pat, a, b);
    }
    if let Some((a, b)) = text::split_once(t, pat) {
        text_laws::lemma_split_once(t, pat, a, b);
        assert(t == a + pat + b);
    }
}

/// Blank text is no constraint, nor is text without an operator between spaces; in other text the
/// name has to be valid, and the version not blank.
pub proof fn lemma_constraint_errors(s: Text)
    ensures
        (dep_constraint::parsed(s) == Err::<DepConstraintView, _>(InvalidDepConstraintView::Empty))
            == (forall|k: int| 0 <= k < s.len() ==> text::is_space(#[trigger] s[k])),
        dep_constraint::parsed(s) matches Err(InvalidDepConstraintView::MissingOperator { value })
            ==> value == text::trimmed(s),
        text::trimmed(s).len() > 0 ==> (dep_constraint::parsed(s) matches Err(
            InvalidDepConstraintView::MissingOperator { .. },
        )) == (forall|op: DepOp| !#[trigger] stands_in(text::trimmed(s), op)),
        dep_constraint::parsed(s) matches Err(InvalidDepConstraintView::InvalidName(name))
            ==> !package_name::valid_name(name),
{
    let t = text::trimmed(s);
    text_laws::lemma_blank(s);
    lemma_stands(t, DepOp::Ge);
    lemma_stands(t, DepOp::Le);
    lemma_stands(t, DepOp::Eq);
    lemma_stands(t, DepOp::Gt);
    lemma_stands(t, DepOp::Lt);
}

/// The version of a text with one operator is what stands behind it, and the name what stands before
/// it: whatever stands at their ends, if both are valid the text is a constraint.
pub proof fn lemma_constraint_accepted(a: Text, op: DepOp, b: Text)
    requires
        forall|other: DepOp|
            other != op ==> !#[trigger] stands_in(
                text::trimmed(a + between_spaces(op) + b),
                other,
            ),
        text::trimmed(a + between_spaces(op) + b) == a + between_spaces(op) + b,
        text::split_once(a + between_spaces(op) + b, between_spaces(op)) == Some((a, b)),
        package_name::valid_name(text::trimmed(a)),
        version::valid_version(text::trimmed(b)),
    ensures
        dep_constraint::parsed(a + between_spaces(op) + b) == Ok::<_, InvalidDepConstraintView>(
            DepConstraintView { name: text::trimmed(a), op, version: text::trimmed(b) },
        ),
{
    let t = a + between_spaces(op) + b;
    reveal_strlit(" >= ");
    reveal_strlit(" <= ");
    reveal_strlit(" = ");
    reveal_strlit(" > ");
    reveal_strlit(" < ");
    assert(t.len() > 0);
    lemma_stands(t, DepOp::Ge);
    lemma_stands(t, DepOp::Le);
    lemma_stands(t, DepOp::Eq);
    lemma_stands(t, DepOp::Gt);
    lemma_stands(t, DepOp::Lt);
    if op != DepOp::Ge {
        assert(!stands_in(t, DepOp::Ge));
    }
    if op != DepOp::Le {
        assert(!stands_in(t, DepOp::Le));
    }
    if op != DepOp::Eq {
        assert(!stands_in(t, DepOp::Eq));
    }
    if op != DepOp::Gt {
        assert(!stands_in(t, DepOp::Gt));
    }
}

/// A field has its width: a short text stands at its beginning and spaces after it, a long one is cut,
/// with three dots at the end where the field is wider than these.
pub proof fn lemma_field(s: Text, width: nat, i: int)
    requires
        0 <= i < width,
    ensures
        term::fixed_width(s, width).len() == width,
        s.len() <= width ==> term::fixed_width(s, width)[i] == if i < s.len() {
            s[i]
        } else {
            ' '
        },
        s.len() > width && (width <= 3 || i < width - 3) ==> term::fixed_width(s, width)[i] == s[i],
        s.len() > width && width > 3 && i >= width - 3 ==> term::fixed_width(s, width)[i] == '.',
{
    reveal_strlit("...");
}

/// Colored text is the text between an escape sequence with the color's number and the one that sets
/// the default color again.
pub proof fn lemma_colored(s: Text, number: Text)
    ensures
        term::colored(s, number) == "\u{1b}["@ + number + "m"@ + s + "\u{1b}[39m"@,
{
    reveal_strlit("\u{1b}[");
    reveal_strlit("m");
    reveal_strlit("39");
    reveal_strlit("\u{1b}[39m");
    assert(term::colored(s, number) =~= "\u{1b}["@ + number + "m"@ + s + "\u{1b}[39m"@);
}

/// There is one issue for each directory of the layout that is missing or is none, in the order of the
/// layout, and it names the directory.
pub proof fn lemma_layout_issues(found: Seq<Found>, n: nat, i: int)
    requires
        n <= found.len(),
        n <= prefix::layout().len(),
        0 <= i < n,
    ensures
        prefix::layout_issues(found, n).len() == found.take(n as int).filter(
            |f: Found| f != Found::Directory,
        ).len(),
        ({
            let at = found.take(i).filter(|f: Found| f != Found::Directory).len() as int;
            &&& found[i] == Found::Missing ==> prefix::layout_issues(found, n)[at] == "missing: "@
                + prefix::layout()[i]
            &&& found[i] == Found::NotDirectory ==> prefix::layout_issues(found, n)[at]
                == "not a directory: "@ + prefix::layout()[i]
            &&& found[i] != Found::Directory ==> at < prefix::layout_issues(found, n).len()
        }),
    decreases n,
{
    reveal(Seq::filter);
    let bad = |f: Found| f != Found::Directory;
    assert(found.take(n as int).drop_last() =~= found.take(n - 1));
    if n > 1 && i < n - 1 {
        lemma_layout_issues(found, (n - 1) as nat, i);
    } else {
        if n > 1 {
            lemma_layout_issues(found, (n - 1) as nat, 0);
        } else {
            assert(found.take(0) =~= Seq::empty());
            assert(prefix::layout_issues(found, 0).len() == 0);
        }
        assert(i == n - 1);
    }
}

/// A given root is used as it is: by itself if it is absolute, and in the current directory otherwise,
/// where that is known. Without one the root is `.local/sic`, in the home directory if there is one.
pub proof fn lemma_root(root: Text, has_home: bool, has_current_dir: bool)
    ensures
        prefix::root_of(Some(root), has_home, has_current_dir).1 == root,
        prefix::root_of(Some(seq!['/'] + root), has_home, has_current_dir).0 == RootBase::Itself,
        root.len() == 0 || root[0] != '/' ==> (prefix::root_of(
            Some(root),
            has_home,
            has_current_dir,
        ).0 == RootBase::CurrentDir) == has_current_dir,
        (prefix::root_of(None, has_home, has_current_dir).0 == RootBase::Home) == has_home,
        (prefix::root_of(None, has_home, has_current_dir).0 == RootBase::CurrentDir) == (!has_home
            && has_current_dir),
        prefix::root_of(Some(root), has_home, has_current_dir).0 != RootBase::Home,
        has_home || has_current_dir ==> prefix::root_of(None, has_home, has_current_dir).1
            == ".local/sic"@,
        !has_home && !has_current_dir ==> prefix::root_of(None, has_home, has_current_dir).1
            == "./"@ + ".local/sic"@,
{
    reveal_strlit(".local/sic");
    reveal_strlit("./");
    reveal_strlit("./.local/sic");
    let absolute = seq!['/'] + root;
    assert(absolute[0] == '/');
    assert("./"@ + ".local/sic"@ =~= "./.local/sic"@);
}

/// Different digests have different entries in the cache, and no entry leaves the cache.
pub proof fn lemma_cache_entries(a: Seq<u8>, b: Seq<u8>)
    ensures
        cache::entry_of_digest(a) == cache::entry_of_digest(b) ==> a == b,
        "var/cache/"@.is_prefix_of(cache::entry_of_digest(a)),
        cache::entry_of_digest(a).len() == 10 + 2 * a.len() + 9,
        forall|i: int|
            10 <= i < 10 + 2 * a.len() ==> hex_digit(#[trigger] cache::entry_of_digest(a)[i]),
{
    reveal_strlit("var/cache/");
    reveal_strlit("/artifact");
    let x = cache::entry_of_digest(a);
    let y = cache::entry_of_digest(b);
    text::lemma_hex(a);
    text::lemma_hex(b);
    assert("var/cache/"@ =~= x.subrange(0, 10));
    assert forall|i: int| 10 <= i < 10 + 2 * a.len() implies hex_digit(#[trigger] x[i]) by {
        assert(x[i] == text::hex(a)[i - 10]);
        assert(text::is_lower_hex(text::hex(a)[i - 10]));
    }
    assert(x.len() == 10 + 2 * a.len() + 9);
    assert(y.len() == 10 + 2 * b.len() + 9);
    if x == y {
        assert(a.len() == b.len());
        assert forall|i: int| 0 <= i < a.len() implies a[i] == b[i] by {
            text_laws::lemma_hex_digits(a, i);
            text_laws::lemma_hex_digits(b, i);
            text_laws::lemma_hex_digit(a[i] as int / 16);
            text_laws::lemma_hex_digit(a[i] as int % 16);
            text_laws::lemma_hex_digit(b[i] as int / 16);
            text_laws::lemma_hex_digit(b[i] as int % 16);
            assert(x[10 + 2 * i] == text::hex(a)[2 * i]);
            assert(y[10 + 2 * i] == text::hex(b)[2 * i]);
            assert(x[10 + 2 * i + 1] == text::hex(a)[2 * i + 1]);
            assert(y[10 + 2 * i + 1] == text::hex(b)[2 * i + 1]);
        }
        assert(a =~= b);
    }
}

/// Lying in a directory is a matter of whole parts: a path lies in itself, what lies in a directory
/// lies in what that lies in, and two paths that lie in each other have the same parts.
pub proof fn lemma_lies_in(a: Text, b: Text, c: Text)
    ensures
        paths::lies_in(a, a),
        paths::lies_in(a, b) && paths::lies_in(b, c) ==> paths::lies_in(a, c),
        paths::lies_in(a, b) && paths::lies_in(b, a) ==> paths::parts(a) == paths::parts(b),
{
    let x = paths::parts(a);
    let y = paths::parts(b);
    let z = paths::parts(c);
    assert(x =~= x.subrange(0, x.len() as int));
    if paths::lies_in(a, b) && paths::lies_in(b, c) {
        assert(z =~= x.subrange(0, z.len() as int));
    }
    if paths::lies_in(a, b) && paths::lies_in(b, a) {
        assert(x =~= y);
    }
}

/// Repeated separators, and `.` between separators, do not change which parts a path has; the parts of
/// a path below a directory are those of the directory and those that follow, `..` among them.
pub proof fn lemma_parts(a: Text, b: Text)
    requires
        a.len() > 0,
        b.len() > 0,
        b[0] != '/',
        text::split(b, '/')[0] != "."@,
    ensures
        paths::parts(a + "/"@ + b) == paths::parts(a) + paths::parts(b),
        paths::parts(a + "//"@ + b) == paths::parts(a + "/"@ + b),
        paths::parts(a + "/./"@ + b) == paths::parts(a + "/"@ + b),
        paths::parts(a + "/"@) == paths::parts(a),
        paths::parts("/"@ + b) == seq!["/"@] + paths::parts(b),
{
    reveal_strlit("/");
    reveal_strlit("//");
    reveal_strlit("/./");
    reveal_strlit(".");
    let sep = "/"@;
    assert(sep =~= seq!['/']);
    lemma_appended(a, b);
    assert(paths::beginning(b) =~= Seq::empty());
    assert(paths::parts(b) =~= text::split(b, '/').filter(paths::counts()));
    let d = seq!['/'] + b;
    assert(a + "//"@ + b =~= a + sep + d);
    lemma_appended(a, d);
    let none = Seq::<char>::empty();
    paths::lemma_split_joined(none, '/', b);
    assert(none + seq!['/'] + b =~= d);
    assert(text::split(none, '/') =~= seq![none]);
    Seq::filter_distributes_over_add(seq![none], text::split(b, '/'), paths::counts());
    lemma_one_filtered(none);
    let e = "."@ + sep + b;
    assert(a + "/./"@ + b =~= a + sep + e);
    lemma_appended(a, e);
    paths::lemma_split_joined("."@, '/', b);
    assert(text::split("."@, '/') =~= seq!["."@]) by {
        reveal_with_fuel(text::split, 2);
        assert("."@.drop_last() =~= none);
        assert("."@.last() == '.');
        assert(none.push('.') =~= "."@);
    }
    Seq::filter_distributes_over_add(seq!["."@], text::split(b, '/'), paths::counts());
    lemma_one_filtered("."@);
    assert(paths::parts(a + "//"@ + b) =~= paths::parts(a + sep + b));
    assert(paths::parts(a + "/./"@ + b) =~= paths::parts(a + sep + b));
    lemma_appended(a, none);
    assert(a + sep + none =~= a + sep);
    assert(paths::parts(a + sep) =~= paths::parts(a));
    assert(sep + b =~= d);
    assert(d[0] == '/');
    assert(paths::parts(d) =~= seq!["/"@] + paths::parts(b));
}

proof fn lemma_one_filtered(s: Text)
    requires
        s.len() == 0 || s == "."@,
    ensures
        seq![s].filter(paths::counts()) == Seq::<Text>::empty(),
{
    reveal(Seq::filter);
    let one = seq![s];
    assert(one.last() == s);
    assert(one.drop_last() =~= Seq::empty());
    assert(one.drop_last().filter(paths::counts()) =~= Seq::empty());
}

pub(crate) proof fn lemma_appended(a: Text, b: Text)
    requires
        a.len() > 0,
    ensures
        paths::parts(a + "/"@ + b) == paths::parts(a) + text::split(b, '/').filter(paths::counts()),
{
    reveal_strlit("/");
    let path = a + "/"@ + b;
    assert("/"@ =~= seq!['/']);
    paths::lemma_split_joined(a, '/', b);
    text::lemma_split_nonempty(a, '/');
    Seq::filter_distributes_over_add(text::split(a, '/'), text::split(b, '/'), paths::counts());
    assert(path[0] == a[0]);
    assert(text::split(path, '/')[0] == text::split(a, '/')[0]);
    assert(paths::parts(path) =~= paths::parts(a) + text::split(b, '/').filter(paths::counts()));
}

/// A path whose name only begins like another's does not lie in that one.
pub proof fn lemma_sibling(base: Text, name: Text, more: Text)
    requires
        base.len() > 0,
        name.len() > 0,
        more.len() > 0,
        name != "."@,
        name + more != "."@,
        forall|k: int| 0 <= k < name.len() ==> #[trigger] name[k] != '/',
        forall|k: int| 0 <= k < more.len() ==> #[trigger] more[k] != '/',
    ensures
        !paths::lies_in(base + "/"@ + name + more, base + "/"@ + name),
{
    lemma_appended(base, name);
    let longer = name + more;
    lemma_appended(base, longer);
    assert(base + "/"@ + name + more =~= base + "/"@ + longer);
    lemma_one_piece(name);
    lemma_one_piece(longer);
    let n = paths::parts(base).len() as int;
    let x = paths::parts(base + "/"@ + longer);
    let y = paths::parts(base + "/"@ + name);
    assert(y[n] == name && x[n] == longer);
    assert(x.len() == n + 1 && y.len() == n + 1);
    if y.is_prefix_of(x) {
        assert(x.subrange(0, y.len() as int)[n] == x[n]);
        assert(longer.len() > name.len());
    }
}

pub(crate) proof fn lemma_one_piece(s: Text)
    requires
        s.len() > 0,
        s != "."@,
        forall|k: int| 0 <= k < s.len() ==> #[trigger] s[k] != '/',
    ensures
        text::split(s, '/').filter(paths::counts()) == seq![s],
{
    let one = seq![s];
    assert forall|i: int, k: int|
        0 <= i < one.len() && 0 <= k < one[i].len() implies #[trigger] one[i][k] != '/' by {
        assert(one[i][k] == s[k]);
    }
    text_laws::lemma_split_of_pieces(one, '/');
    text_laws::lemma_joined(Seq::empty(), Seq::empty(), s, seq!['/']);
    assert(text::split(s, '/') == one);
    reveal(Seq::filter);
    assert(one.last() == s);
    assert(one.drop_last() =~= Seq::empty());
    assert(one.drop_last().filter(paths::counts()) =~= Seq::empty());
    assert(one.filter(paths::counts()) =~= one);
}

/// The cache entry of a source is named by the digest of its URL and of its hash as it is written.
pub proof fn lemma_cache_entry(s: source::SourceView)
    ensures
        cache::cache_entry(s) == "var/cache/"@ + text::hex(
            cache::sha256(
                vstd::utf8::encode_utf8(s.url + (s.hash.algorithm + seq![':'] + s.hash.hex)),
            ),
        ) + "/artifact"@,
{
    reveal_strlit(":");
    assert(":"@ =~= seq![':']);
}

/// The layout has a place for packages, programs, manual pages, the cache, the backups and staging.
pub proof fn lemma_layout()
    ensures
        prefix::layout().contains("pkgs"@),
        prefix::layout().contains("bin"@),
        prefix::layout().contains("share/man"@),
        prefix::layout().contains("var/cache"@),
        prefix::layout().contains("var/backups"@),
        prefix::layout().contains("var/transactions"@),
        prefix::layout().contains("tmp"@),
        prefix::layout().contains("backups"@),
{
    let all = prefix::layout();
    assert(all[0] == "pkgs"@ && all[1] == "bin"@ && all[3] == "share/man"@);
    assert(all[5] == "var/cache"@ && all[6] == "var/backups"@ && all[7] == "var/transactions"@);
    assert(all[8] == "tmp"@ && all[9] == "backups"@);
}

} // verus!
