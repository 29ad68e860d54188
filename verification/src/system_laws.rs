//! What is read of the system's package databases, stated of the positions of their lines.

use vstd::prelude::*;
use vstd::string::*;

use crate::package_name;
use crate::system_packages;
use crate::table;
use crate::text;
use crate::text::Text;
use crate::version;

verus! {

/// What stands in the line behind the key, without the white space around it.
pub open spec fn value_after(key: Text, line: Text) -> Text {
    text::trimmed(line.skip(key.len() as int))
}

/// Whether the line gives the package's name.
pub open spec fn gives_name(line: Text, name: Text) -> bool {
    &&& "Package:"@.is_prefix_of(line)
    &&& name == text::lowered(value_after("Package:"@, line))
    &&& package_name::valid_name(name)
}

/// Whether the line gives the package's version.
pub open spec fn gives_version(line: Text, v: Text) -> bool {
    &&& "Version:"@.is_prefix_of(line)
    &&& v == value_after("Version:"@, line)
    &&& version::valid_version(v)
}

/// Whether the line gives the package's status.
pub open spec fn gives_status(line: Text) -> bool {
    "Status:"@.is_prefix_of(line)
}

/// Whether the line says that the package is installed.
pub open spec fn says_installed(line: Text) -> bool {
    &&& gives_status(line)
    &&& text::lowered(value_after("Status:"@, line)) == "install ok installed"@
}

/// Whether the line begins with one of the three keys.
pub open spec fn is_field(line: Text) -> bool {
    "Package:"@.is_prefix_of(line) || "Version:"@.is_prefix_of(line) || "Status:"@.is_prefix_of(
        line,
    )
}

/// Whether line `a` is the last that gives a name, and gives this one.
pub open spec fn named_at(lines: Seq<Text>, name: Text, a: int) -> bool {
    &&& 0 <= a < lines.len()
    &&& gives_name(lines[a], name)
    &&& forall|i: int, other: Text| a < i < lines.len() ==> !#[trigger] gives_name(lines[i], other)
}

/// Whether line `b` is the last that gives a version, and gives this one.
pub open spec fn versioned_at(lines: Seq<Text>, v: Text, b: int) -> bool {
    &&& 0 <= b < lines.len()
    &&& gives_version(lines[b], v)
    &&& forall|i: int, other: Text|
        b < i < lines.len() ==> !#[trigger] gives_version(lines[i], other)
}

/// Whether line `c` is the last that gives a status, and says that the package is installed.
pub open spec fn installed_at(lines: Seq<Text>, c: int) -> bool {
    &&& 0 <= c < lines.len()
    &&& says_installed(lines[c])
    &&& forall|i: int| c < i < lines.len() ==> !gives_status(#[trigger] lines[i])
}

/// Whether the lines describe an installed package of that name and version.
pub open spec fn describe(lines: Seq<Text>, name: Text, v: Text) -> bool {
    &&& exists|a: int| #[trigger] named_at(lines, name, a)
    &&& exists|b: int| #[trigger] versioned_at(lines, v, b)
    &&& exists|c: int| #[trigger] installed_at(lines, c)
}

/// Whether the paragraph describes an installed package of that name and version.
pub open spec fn tells(paragraph: Text, name: Text, v: Text) -> bool {
    describe(text::lines(text::trimmed(paragraph)), name, v)
}

/// Whether paragraph `i` is the last that describes an installed package of that name, and gives this
/// version of it.
pub open spec fn last_told(paragraphs: Seq<Text>, name: Text, v: Text, i: int) -> bool {
    &&& 0 <= i < paragraphs.len()
    &&& tells(paragraphs[i], name, v)
    &&& forall|j: int, w: Text| i < j < paragraphs.len() ==> !#[trigger] tells(paragraphs[j], name, w)
}

/// No line begins with two of the keys.
proof fn lemma_keys(line: Text)
    ensures
        "Package:"@.is_prefix_of(line) ==> !"Version:"@.is_prefix_of(line)
            && !"Status:"@.is_prefix_of(line),
        "Version:"@.is_prefix_of(line) ==> !"Status:"@.is_prefix_of(line),
        "C:"@.is_prefix_of(line) ==> !"P:"@.is_prefix_of(line) && !"V:"@.is_prefix_of(line),
        "P:"@.is_prefix_of(line) ==> !"V:"@.is_prefix_of(line),
{
    reveal_strlit("Package:");
    reveal_strlit("Version:");
    reveal_strlit("Status:");
    reveal_strlit("C:");
    reveal_strlit("P:");
    reveal_strlit("V:");
    let p = "Package:"@;
    let v = "Version:"@;
    let s = "Status:"@;
    assert(p[0] == 'P' && v[0] == 'V' && s[0] == 'S');
    assert("C:"@[0] == 'C' && "P:"@[0] == 'P' && "V:"@[0] == 'V');
    if p.is_prefix_of(line) {
        assert(line[0] == 'P');
    }
    if v.is_prefix_of(line) {
        assert(line[0] == 'V');
    }
    if s.is_prefix_of(line) {
        assert(line[0] == 'S');
    }
    if "C:"@.is_prefix_of(line) {
        assert(line[0] == 'C');
    }
    if "P:"@.is_prefix_of(line) {
        assert(line[0] == 'P');
    }
    if "V:"@.is_prefix_of(line) {
        assert(line[0] == 'V');
    }
}

/// The fields are those of the last lines that give them.
proof fn lemma_fields(lines: Seq<Text>)
    ensures
        ({
            let f = system_packages::dpkg_fields(lines);
            &&& f.name is Some ==> exists|a: int| #[trigger] named_at(lines, f.name->0, a)
            &&& f.name is None ==> forall|i: int, other: Text|
                0 <= i < lines.len() ==> !#[trigger] gives_name(lines[i], other)
            &&& f.version is Some ==> exists|b: int| #[trigger]
                versioned_at(lines, f.version->0, b)
            &&& f.version is None ==> forall|i: int, other: Text|
                0 <= i < lines.len() ==> !#[trigger] gives_version(lines[i], other)
            &&& f.installed ==> exists|c: int| #[trigger] installed_at(lines, c)
            &&& !f.installed ==> forall|c: int| !#[trigger] installed_at(lines, c)
        }),
    decreases lines.len(),
{
    if lines.len() > 0 {
        let d = lines.drop_last();
        let n = lines.len() - 1;
        let last = lines[n];
        let g = system_packages::dpkg_fields(d);
        let f = system_packages::dpkg_fields(lines);
        lemma_fields(d);
        lemma_keys(last);
        assert(forall|i: int| 0 <= i < d.len() ==> #[trigger] d[i] == lines[i]);
        let name = text::lowered(value_after("Package:"@, last));
        if gives_name(last, name) {
            assert(named_at(lines, f.name->0, n));
        } else {
            assert forall|other: Text| !#[trigger] gives_name(last, other) by {}
            assert(f.name == g.name);
            match g.name {
                Some(x) => {
                    let a = choose|a: int| #[trigger] named_at(d, x, a);
                    assert forall|i: int, other: Text| a < i < lines.len() implies !#[trigger]
                    gives_name(lines[i], other) by {
                        if i < n {
                            assert(!gives_name(d[i], other));
                        }
                    }
                    assert(named_at(lines, f.name->0, a));
                },
                None => {
                    assert forall|i: int, other: Text| 0 <= i < lines.len() implies !#[trigger]
                    gives_name(lines[i], other) by {
                        if i < n {
                            assert(!gives_name(d[i], other));
                        }
                    }
                },
            }
        }
        let v = value_after("Version:"@, last);
        if gives_version(last, v) {
            assert(versioned_at(lines, f.version->0, n));
        } else {
            assert forall|other: Text| !#[trigger] gives_version(last, other) by {}
            assert(f.version == g.version);
            match g.version {
                Some(x) => {
                    let b = choose|b: int| #[trigger] versioned_at(d, x, b);
                    assert forall|i: int, other: Text| b < i < lines.len() implies !#[trigger]
                    gives_version(lines[i], other) by {
                        if i < n {
                            assert(!gives_version(d[i], other));
                        }
                    }
                    assert(versioned_at(lines, f.version->0, b));
                },
                None => {
                    assert forall|i: int, other: Text| 0 <= i < lines.len() implies !#[trigger]
                    gives_version(lines[i], other) by {
                        if i < n {
                            assert(!gives_version(d[i], other));
                        }
                    }
                },
            }
        }
        if gives_status(last) {
            if says_installed(last) {
                assert(installed_at(lines, n));
            } else {
                assert forall|c: int| !#[trigger] installed_at(lines, c) by {
                    if installed_at(lines, c) && c < n {
                        assert(!gives_status(lines[n]));
                    }
                }
            }
        } else {
            if g.installed {
                let c = choose|c: int| #[trigger] installed_at(d, c);
                assert forall|i: int| c < i < lines.len() implies !gives_status(
                    #[trigger] lines[i],
                ) by {
                    if i < n {
                        assert(!gives_status(d[i]));
                    }
                }
                assert(installed_at(lines, c));
            }
            if exists|c: int| #[trigger] installed_at(lines, c) {
                let c = choose|c: int| #[trigger] installed_at(lines, c);
                assert(c < n);
                assert(installed_at(d, c));
            }
        }
    }
}

/// Two lines cannot both be the last that give a name, so one name is given at most; the same holds
/// of the version.
proof fn lemma_described_once(lines: Seq<Text>, name: Text, v: Text, other: Text, w: Text)
    requires
        describe(lines, name, v),
        describe(lines, other, w),
    ensures
        name == other,
        v == w,
{
    let a = choose|a: int| #[trigger] named_at(lines, name, a);
    let b = choose|b: int| #[trigger] named_at(lines, other, b);
    assert(gives_name(lines[a], name) && gives_name(lines[b], other));
    let c = choose|c: int| #[trigger] versioned_at(lines, v, c);
    let d = choose|d: int| #[trigger] versioned_at(lines, w, d);
    assert(gives_version(lines[c], v) && gives_version(lines[d], w));
}

/// A paragraph of the dpkg status file gives the package that it describes: the name of its last
/// valid `Package:` line and the version of its last valid `Version:` line, if its last `Status:`
/// line says that the package is installed. Any other paragraph gives nothing.
pub proof fn lemma_dpkg_paragraph(t: Seq<(Text, Text)>, paragraph: Text, name: Text, v: Text)
    ensures
        tells(paragraph, name, v) ==> system_packages::with_paragraph(t, paragraph) == table::put(
            t,
            name,
            v,
        ),
        (forall|other: Text, w: Text| !#[trigger] tells(paragraph, other, w))
            ==> system_packages::with_paragraph(t, paragraph) == t,
{
    let lines = text::lines(text::trimmed(paragraph));
    let f = system_packages::dpkg_fields(lines);
    lemma_fields(lines);
    if tells(paragraph, name, v) {
        let a = choose|a: int| #[trigger] named_at(lines, name, a);
        let b = choose|b: int| #[trigger] versioned_at(lines, v, b);
        assert(gives_name(lines[a], name));
        assert(gives_version(lines[b], v));
        assert(f.name is Some && f.version is Some && f.installed);
        assert(describe(lines, f.name->0, f.version->0));
        lemma_described_once(lines, name, v, f.name->0, f.version->0);
    }
    if f.name is Some && f.version is Some && f.installed {
        assert(tells(paragraph, f.name->0, f.version->0));
    }
}

/// A paragraph with one valid `Package:` line, one valid `Version:` line and one `Status:` line that
/// says `install ok installed`, in any order among any other lines, gives exactly that package and
/// version.
pub proof fn lemma_dpkg_plain_paragraph(
    t: Seq<(Text, Text)>,
    paragraph: Text,
    name: Text,
    v: Text,
    a: int,
    b: int,
    c: int,
)
    requires
        ({
            let lines = text::lines(text::trimmed(paragraph));
            &&& 0 <= a < lines.len() && gives_name(lines[a], name)
            &&& 0 <= b < lines.len() && gives_version(lines[b], v)
            &&& 0 <= c < lines.len() && says_installed(lines[c])
            &&& forall|i: int|
                0 <= i < lines.len() && i != a && i != b && i != c ==> !is_field(
                    #[trigger] lines[i],
                )
        }),
    ensures
        system_packages::with_paragraph(t, paragraph) == table::put(t, name, v),
{
    let lines = text::lines(text::trimmed(paragraph));
    lemma_keys(lines[a]);
    lemma_keys(lines[b]);
    lemma_keys(lines[c]);
    assert forall|i: int, other: Text| a < i < lines.len() implies !#[trigger] gives_name(
        lines[i],
        other,
    ) by {
        if i != b && i != c {
            assert(!is_field(lines[i]));
        }
    }
    assert(named_at(lines, name, a));
    assert forall|i: int, other: Text| b < i < lines.len() implies !#[trigger] gives_version(
        lines[i],
        other,
    ) by {
        if i != a && i != c {
            assert(!is_field(lines[i]));
        }
    }
    assert(versioned_at(lines, v, b));
    assert forall|i: int| c < i < lines.len() implies !gives_status(#[trigger] lines[i]) by {
        if i != a && i != b {
            assert(!is_field(lines[i]));
        }
    }
    assert(installed_at(lines, c));
    lemma_dpkg_paragraph(t, paragraph, name, v);
}

proof fn lemma_fields_only(lines: Seq<Text>)
    ensures
        system_packages::dpkg_fields(lines) == system_packages::dpkg_fields(
            lines.filter(|line: Text| is_field(line)),
        ),
    decreases lines.len(),
{
    reveal(Seq::filter);
    if lines.len() > 0 {
        let keep = |line: Text| is_field(line);
        lemma_fields_only(lines.drop_last());
        if is_field(lines.last()) {
            assert(lines.filter(keep).drop_last() =~= lines.drop_last().filter(keep));
        }
    }
}

/// A line that begins with none of `Package:`, `Version:` and `Status:` changes nothing: a paragraph
/// gives what it gives with such lines left out.
pub proof fn lemma_dpkg_other_lines(t: Seq<(Text, Text)>, paragraph: Text, shorter: Text)
    requires
        text::lines(text::trimmed(shorter)) == text::lines(text::trimmed(paragraph)).filter(
            |line: Text| is_field(line),
        ),
    ensures
        system_packages::with_paragraph(t, paragraph) == system_packages::with_paragraph(
            t,
            shorter,
        ),
{
    lemma_fields_only(text::lines(text::trimmed(paragraph)));
}

proof fn lemma_dpkg_packages(paragraphs: Seq<Text>, name: Text)
    ensures
        table::sorted(system_packages::dpkg_packages(paragraphs)),
        table::get(system_packages::dpkg_packages(paragraphs), name) is Some ==> exists|i: int| #[trigger]
            last_told(paragraphs, name, table::get(system_packages::dpkg_packages(paragraphs), name)->0, i),
        table::get(system_packages::dpkg_packages(paragraphs), name) is None ==> forall|j: int, w: Text|
            0 <= j < paragraphs.len() ==> !#[trigger] tells(paragraphs[j], name, w),
    decreases paragraphs.len(),
{
    if paragraphs.len() > 0 {
        let d = paragraphs.drop_last();
        let n = paragraphs.len() - 1;
        let last = paragraphs[n];
        let t = system_packages::dpkg_packages(d);
        let u = system_packages::dpkg_packages(paragraphs);
        lemma_dpkg_packages(d, name);
        assert(forall|i: int| 0 <= i < d.len() ==> #[trigger] d[i] == paragraphs[i]);
        assert(u == system_packages::with_paragraph(t, last));
        let told = exists|other: Text, w: Text| #[trigger] tells(last, other, w);
        let (other, w) = choose|other: Text, w: Text| #[trigger] tells(last, other, w);
        lemma_dpkg_paragraph(t, last, other, w);
        if told {
            table::lemma_put(t, other, w);
        }
        if told && other == name {
            assert(table::get(u, name) == Some(w));
            assert(last_told(paragraphs, name, table::get(u, name)->0, n));
        } else {
            assert forall|x: Text| !#[trigger] tells(last, name, x) by {
                if tells(last, name, x) {
                    lemma_described_once(
                        text::lines(text::trimmed(last)),
                        name,
                        x,
                        other,
                        w,
                    );
                }
            }
            assert(table::get(u, name) == table::get(t, name));
            match table::get(t, name) {
                Some(v) => {
                    let i = choose|i: int| #[trigger] last_told(d, name, v, i);
                    assert forall|j: int, x: Text| i < j < paragraphs.len() implies !#[trigger]
                    tells(paragraphs[j], name, x) by {
                        if j < n {
                            assert(!tells(d[j], name, x));
                        }
                    }
                    assert(last_told(paragraphs, name, table::get(u, name)->0, i));
                },
                None => {
                    assert forall|j: int, x: Text| 0 <= j < paragraphs.len() implies !#[trigger]
                    tells(paragraphs[j], name, x) by {
                        if j < n {
                            assert(!tells(d[j], name, x));
                        }
                    }
                },
            }
        }
    }
}

/// The dpkg status file gives of each name the version in the last paragraph that describes an
/// installed package of that name, and nothing of a name that none describes.
pub proof fn lemma_dpkg_status(contents: Text, name: Text)
    ensures
        ({
            let paragraphs = text::split_text(contents, "\n\n"@);
            let got = table::get(system_packages::dpkg_status(contents), name);
            &&& got is Some ==> exists|i: int| #[trigger] last_told(paragraphs, name, got->0, i)
            &&& got is None ==> forall|j: int, w: Text|
                0 <= j < paragraphs.len() ==> !#[trigger] tells(paragraphs[j], name, w)
        }),
{
    lemma_dpkg_packages(text::split_text(contents, "\n\n"@), name);
}

/// Whether line `a` of the record is the last that begins with the key.
pub open spec fn last_with(record: Seq<Text>, key: Text, a: int) -> bool {
    &&& 0 <= a < record.len()
    &&& key.is_prefix_of(record[a])
    &&& forall|i: int| a < i < record.len() ==> !key.is_prefix_of(#[trigger] record[i])
}

/// Whether no line of the record begins with the key.
pub open spec fn without_key(record: Seq<Text>, key: Text) -> bool {
    forall|i: int| 0 <= i < record.len() ==> !key.is_prefix_of(#[trigger] record[i])
}

proof fn lemma_apk_lines(before: Seq<Text>, record: Seq<Text>)
    requires
        without_key(record, "C:"@),
    ensures
        ({
            let s = system_packages::apk_state(before);
            let u = system_packages::apk_state(before + record);
            &&& u.packages == s.packages
            &&& without_key(record, "P:"@) ==> u.name == s.name
            &&& without_key(record, "V:"@) ==> u.version == s.version
            &&& forall|a: int| #[trigger]
                last_with(record, "P:"@, a) ==> u.name == Some(
                    text::lowered(value_after("P:"@, record[a])),
                )
            &&& forall|b: int| #[trigger]
                last_with(record, "V:"@, b) ==> u.version == Some(value_after("V:"@, record[b]))
        }),
    decreases record.len(),
{
    if record.len() == 0 {
        assert(before + record =~= before);
    } else {
        let d = record.drop_last();
        let n = record.len() - 1;
        assert(forall|i: int| 0 <= i < d.len() ==> #[trigger] d[i] == record[i]);
        assert((before + record).drop_last() =~= before + d);
        assert((before + record).last() == record[n]);
        lemma_apk_lines(before, d);
        lemma_keys(record[n]);
        assert forall|a: int| #[trigger]
            last_with(record, "P:"@, a) implies system_packages::apk_state(before + record).name
            == Some(text::lowered(value_after("P:"@, record[a]))) by {
            if a < n {
                assert(!"P:"@.is_prefix_of(record[n]));
                assert(last_with(d, "P:"@, a));
            }
        }
        assert forall|b: int| #[trigger]
            last_with(record, "V:"@, b) implies system_packages::apk_state(before + record).version
            == Some(value_after("V:"@, record[b])) by {
            if b < n {
                assert(!"V:"@.is_prefix_of(record[n]));
                assert(last_with(d, "V:"@, b));
            }
        }
        if without_key(record, "P:"@) {
            assert(without_key(d, "P:"@));
            assert(!"P:"@.is_prefix_of(record[n]));
        }
        if without_key(record, "V:"@) {
            assert(without_key(d, "V:"@));
            assert(!"V:"@.is_prefix_of(record[n]));
        }
    }
}

/// A record of an apk database, from its `C:` line to the end, adds the package of its last `P:` line
/// with the version of its last `V:` line, if both are valid and the name is new; it changes nothing
/// else. Any other lines in it do not matter. A record without a `P:` line, or without a `V:` line,
/// adds nothing.
pub proof fn lemma_apk_record(
    contents: Text,
    longer: Text,
    first: Text,
    record: Seq<Text>,
    a: int,
    b: int,
    name: Text,
)
    requires
        "C:"@.is_prefix_of(first),
        without_key(record, "C:"@),
        text::lines(longer) == text::lines(contents) + seq![first] + record,
    ensures
        last_with(record, "P:"@, a) && last_with(record, "V:"@, b) ==> table::get(
            system_packages::apk_installed(longer),
            name,
        ) == match table::get(system_packages::apk_installed(contents), name) {
            Some(v) => Some(v),
            None => if name == text::lowered(value_after("P:"@, record[a]))
                && package_name::valid_name(name) && version::valid_version(
                value_after("V:"@, record[b]),
            ) {
                Some(value_after("V:"@, record[b]))
            } else {
                None
            },
        },
        without_key(record, "P:"@) || without_key(record, "V:"@) ==> table::get(
            system_packages::apk_installed(longer),
            name,
        ) == table::get(system_packages::apk_installed(contents), name),
{
    let before = text::lines(contents);
    let start = before.push(first);
    let s = system_packages::apk_state(before);
    assert(start.drop_last() =~= before);
    assert(start.last() == first);
    let ended = system_packages::apk_record_end(s);
    assert(system_packages::apk_state(start) == ended);
    assert(start + record =~= text::lines(longer));
    lemma_apk_lines(start, record);
    system_packages::lemma_apk_sorted(before);
    system_packages::lemma_apk_end_sorted(s);
    let u = system_packages::apk_state(start + record);
    if last_with(record, "P:"@, a) && last_with(record, "V:"@, b) {
        let n = text::lowered(value_after("P:"@, record[a]));
        let v = value_after("V:"@, record[b]);
        assert(u.name == Some(n) && u.version == Some(v));
        table::lemma_put(ended.packages, n, v);
    }
}

/// A line of an apk database that begins with none of `C:`, `P:` and `V:` changes nothing.
pub proof fn lemma_apk_other_lines(contents: Text, shorter: Text)
    requires
        text::lines(shorter) == text::lines(contents).filter(
            |line: Text|
                "C:"@.is_prefix_of(line) || "P:"@.is_prefix_of(line) || "V:"@.is_prefix_of(line),
        ),
    ensures
        system_packages::apk_installed(shorter) == system_packages::apk_installed(contents),
{
    lemma_apk_keys_only(text::lines(contents));
}

proof fn lemma_apk_keys_only(lines: Seq<Text>)
    ensures
        system_packages::apk_state(lines) == system_packages::apk_state(
            lines.filter(
                |line: Text|
                    "C:"@.is_prefix_of(line) || "P:"@.is_prefix_of(line) || "V:"@.is_prefix_of(
                        line,
                    ),
            ),
        ),
    decreases lines.len(),
{
    reveal(Seq::filter);
    if lines.len() > 0 {
        let keep = |line: Text|
            "C:"@.is_prefix_of(line) || "P:"@.is_prefix_of(line) || "V:"@.is_prefix_of(line);
        lemma_apk_keys_only(lines.drop_last());
        if keep(lines.last()) {
            assert(lines.filter(keep).drop_last() =~= lines.drop_last().filter(keep));
        }
    }
}

/// A database without a line that begins with `C:`, `P:` or `V:` has no packages.
pub proof fn lemma_apk_empty(contents: Text)
    requires
        without_key(text::lines(contents), "C:"@),
        without_key(text::lines(contents), "P:"@) || without_key(text::lines(contents), "V:"@),
    ensures
        system_packages::apk_installed(contents).len() == 0,
{
    let none = Seq::<Text>::empty();
    assert(none + text::lines(contents) =~= text::lines(contents));
    lemma_apk_lines(none, text::lines(contents));
}

proof fn lemma_pacman_from(
    lines: Seq<Text>,
    p: int,
    name: Option<Text>,
    v: Option<Text>,
    i: int,
    j: int,
)
    requires
        0 <= p,
        0 <= i,
        0 <= j,
        i + 1 < lines.len(),
        j + 1 < lines.len(),
        i + 1 != j,
        j + 1 != i,
        lines[i] == "%NAME%"@,
        lines[j] == "%VERSION%"@,
        forall|k: int|
            0 <= k < lines.len() && k != i && k != j ==> #[trigger] lines[k] != "%NAME%"@
                && lines[k] != "%VERSION%"@,
        p != i + 1,
        p != j + 1,
    ensures
        system_packages::pacman_fields(lines, p, name, v) == (
            if p <= i {
                Some(text::lowered(text::trimmed(lines[i + 1])))
            } else {
                name
            },
            if p <= j {
                Some(text::trimmed(lines[j + 1]))
            } else {
                v
            },
        ),
    decreases lines.len() - p,
{
    reveal_strlit("%NAME%");
    reveal_strlit("%VERSION%");
    assert("%NAME%"@.len() != "%VERSION%"@.len());
    if p < lines.len() {
        if p == i {
            lemma_pacman_from(
                lines,
                p + 2,
                Some(text::lowered(text::trimmed(lines[i + 1]))),
                v,
                i,
                j,
            );
        } else if p == j {
            lemma_pacman_from(lines, p + 2, name, Some(text::trimmed(lines[j + 1])), i, j);
        } else {
            lemma_pacman_from(lines, p + 1, name, v, i, j);
        }
    }
}

/// A pacman description with one `%NAME%` line and one `%VERSION%` line, each followed by a value,
/// among any other lines, gives that name in lower case and that version.
pub proof fn lemma_pacman_desc(contents: Text, i: int, j: int)
    requires
        ({
            let lines = text::lines(contents);
            &&& 0 <= i && i + 1 < lines.len() && lines[i] == "%NAME%"@
            &&& 0 <= j && j + 1 < lines.len() && lines[j] == "%VERSION%"@
            &&& i + 1 != j && j + 1 != i
            &&& forall|k: int|
                0 <= k < lines.len() && k != i && k != j ==> #[trigger] lines[k] != "%NAME%"@
                    && lines[k] != "%VERSION%"@
        }),
    ensures
        system_packages::pacman_desc(contents) == Some(
            (
                text::lowered(text::trimmed(text::lines(contents)[i + 1])),
                text::trimmed(text::lines(contents)[j + 1]),
            ),
        ),
{
    lemma_pacman_from(text::lines(contents), 0, None, None, i, j);
}

proof fn lemma_pacman_sources(lines: Seq<Text>, p: int, name: Option<Text>, v: Option<Text>)
    requires
        0 <= p,
    ensures
        ({
            let r = system_packages::pacman_fields(lines, p, name, v);
            &&& r.0 == name || exists|i: int|
                p <= i < lines.len() - 1 && #[trigger] lines[i] == "%NAME%"@ && r.0 == Some(
                    text::lowered(text::trimmed(lines[i + 1])),
                )
            &&& r.1 == v || exists|j: int|
                p <= j < lines.len() - 1 && #[trigger] lines[j] == "%VERSION%"@ && r.1 == Some(
                    text::trimmed(lines[j + 1]),
                )
        }),
    decreases lines.len() - p,
{
    if p < lines.len() {
        if lines[p] == "%NAME%"@ && p + 1 < lines.len() {
            lemma_pacman_sources(
                lines,
                p + 2,
                Some(text::lowered(text::trimmed(lines[p + 1]))),
                v,
            );
        } else if lines[p] == "%VERSION%"@ && p + 1 < lines.len() {
            lemma_pacman_sources(lines, p + 2, name, Some(text::trimmed(lines[p + 1])));
        } else {
            lemma_pacman_sources(lines, p + 1, name, v);
        }
    }
}

/// What a pacman description gives follows a `%NAME%` line and a `%VERSION%` line: without either it
/// gives nothing.
pub proof fn lemma_pacman_given(contents: Text)
    ensures
        system_packages::pacman_desc(contents) matches Some((name, v)) ==> {
            let lines = text::lines(contents);
            &&& exists|i: int|
                0 <= i < lines.len() - 1 && #[trigger] lines[i] == "%NAME%"@ && name
                    == text::lowered(text::trimmed(lines[i + 1]))
            &&& exists|j: int|
                0 <= j < lines.len() - 1 && #[trigger] lines[j] == "%VERSION%"@ && v
                    == text::trimmed(lines[j + 1])
        },
{
    lemma_pacman_sources(text::lines(contents), 0, None, None);
}

/// Whether the description gives a valid package.
pub open spec fn pacman_gives(desc: Text, name: Text, v: Text) -> bool {
    &&& system_packages::pacman_desc(desc) == Some((name, v))
    &&& package_name::valid_name(name)
    &&& version::valid_version(v)
}

/// Of each name the pacman descriptions give the version of the first valid one with that name.
pub proof fn lemma_pacman_local(descs: Seq<Text>, name: Text)
    ensures
        table::sorted(system_packages::pacman_local(descs)),
        match table::get(system_packages::pacman_local(descs), name) {
            Some(v) => exists|i: int|
                0 <= i < descs.len() && #[trigger] pacman_gives(descs[i], name, v) && forall|
                    j: int,
                    w: Text,
                |
                    0 <= j < i ==> !#[trigger] pacman_gives(descs[j], name, w),
            None => forall|j: int, w: Text|
                0 <= j < descs.len() ==> !#[trigger] pacman_gives(descs[j], name, w),
        },
    decreases descs.len(),
{
    if descs.len() > 0 {
        let d = descs.drop_last();
        let n = descs.len() - 1;
        let t = system_packages::pacman_local(d);
        lemma_pacman_local(d, name);
        assert(forall|i: int| 0 <= i < d.len() ==> #[trigger] d[i] == descs[i]);
        if let Some((x, v)) = system_packages::pacman_desc(descs[n]) {
            table::lemma_put(t, x, v);
        }
        match table::get(t, name) {
            Some(v) => {
                let i = choose|i: int|
                    0 <= i < d.len() && #[trigger] pacman_gives(d[i], name, v) && forall|
                        j: int,
                        w: Text,
                    |
                        0 <= j < i ==> !#[trigger] pacman_gives(d[j], name, w);
                assert(pacman_gives(descs[i], name, v));
                assert forall|j: int, w: Text| 0 <= j < i implies !#[trigger] pacman_gives(
                    descs[j],
                    name,
                    w,
                ) by {
                    assert(!pacman_gives(d[j], name, w));
                }
            },
            None => {
                assert forall|j: int, w: Text| 0 <= j < n implies !#[trigger] pacman_gives(
                    descs[j],
                    name,
                    w,
                ) by {
                    assert(!pacman_gives(d[j], name, w));
                }
                if let Some(v) = table::get(system_packages::pacman_local(descs), name) {
                    assert(pacman_gives(descs[n], name, v));
                }
            },
        }
    }
}

/// Of texts, the greatest is one of them that none of them comes after; only no texts have none.
pub proof fn lemma_greatest(list: Seq<Text>)
    ensures
        match system_packages::greatest(list) {
            Some(best) => list.contains(best) && forall|i: int|
                0 <= i < list.len() ==> !text::text_lt(best, #[trigger] list[i]),
            None => list.len() == 0,
        },
    decreases list.len(),
{
    if list.len() > 0 {
        let d = list.drop_last();
        let n = list.len() - 1;
        lemma_greatest(d);
        assert(forall|i: int| 0 <= i < d.len() ==> #[trigger] d[i] == list[i]);
        let best = system_packages::greatest(list)->0;
        text::lemma_text_lt_irreflexive(list[n]);
        match system_packages::greatest(d) {
            Some(b) => {
                let k = choose|k: int| 0 <= k < d.len() && d[k] == b;
                assert(list[k] == b);
                assert forall|i: int| 0 <= i < list.len() implies !text::text_lt(
                    best,
                    #[trigger] list[i],
                ) by {
                    if i < n {
                        assert(!text::text_lt(b, d[i]));
                        if best != b && text::text_lt(best, list[i]) {
                            text::lemma_text_lt_transitive(b, best, list[i]);
                        }
                    }
                }
            },
            None => {},
        }
        assert(list[n] == list.last());
    }
}

/// Whether the Cellar directory, with its version directories, gives a valid package: its name in
/// lower case, with the greatest of the names of its version directories.
pub open spec fn cellar_gives(dir: (Text, Seq<Text>), name: Text, v: Text) -> bool {
    &&& name == text::lowered(dir.0)
    &&& dir.1.contains(v)
    &&& forall|i: int| 0 <= i < dir.1.len() ==> !text::text_lt(v, #[trigger] dir.1[i])
    &&& package_name::valid_name(name)
    &&& version::valid_version(v)
}

/// Of each name the Cellar gives the version of the first valid directory with that name.
pub proof fn lemma_cellar(dirs: Seq<(Text, Seq<Text>)>, name: Text)
    ensures
        table::sorted(system_packages::cellar_packages(dirs)),
        match table::get(system_packages::cellar_packages(dirs), name) {
            Some(v) => exists|i: int|
                0 <= i < dirs.len() && #[trigger] cellar_gives(dirs[i], name, v) && forall|
                    j: int,
                    w: Text,
                |
                    0 <= j < i ==> !#[trigger] cellar_gives(dirs[j], name, w),
            None => forall|j: int, w: Text|
                0 <= j < dirs.len() ==> !#[trigger] cellar_gives(dirs[j], name, w),
        },
    decreases dirs.len(),
{
    if dirs.len() > 0 {
        let d = dirs.drop_last();
        let n = dirs.len() - 1;
        let t = system_packages::cellar_packages(d);
        lemma_cellar(d, name);
        lemma_greatest(dirs[n].1);
        assert(forall|i: int| 0 <= i < d.len() ==> #[trigger] d[i] == dirs[i]);
        if let Some(v) = system_packages::greatest(dirs[n].1) {
            table::lemma_put(t, text::lowered(dirs[n].0), v);
        }
        assert forall|w: Text| #[trigger]
            cellar_gives(dirs[n], name, w) implies system_packages::greatest(dirs[n].1) == Some(
            w,
        ) by {
            let best = system_packages::greatest(dirs[n].1)->0;
            let a = choose|a: int| 0 <= a < dirs[n].1.len() && dirs[n].1[a] == w;
            assert(dirs[n].1[a] == w);
            let b = choose|b: int| 0 <= b < dirs[n].1.len() && dirs[n].1[b] == best;
            assert(dirs[n].1[b] == best);
            text::lemma_text_lt_total(w, best);
        }
        match table::get(t, name) {
            Some(v) => {
                let i = choose|i: int|
                    0 <= i < d.len() && #[trigger] cellar_gives(d[i], name, v) && forall|
                        j: int,
                        w: Text,
                    |
                        0 <= j < i ==> !#[trigger] cellar_gives(d[j], name, w);
                assert(cellar_gives(dirs[i], name, v));
                assert forall|j: int, w: Text| 0 <= j < i implies !#[trigger] cellar_gives(
                    dirs[j],
                    name,
                    w,
                ) by {
                    assert(!cellar_gives(d[j], name, w));
                }
            },
            None => {
                assert forall|j: int, w: Text| 0 <= j < n implies !#[trigger] cellar_gives(
                    dirs[j],
                    name,
                    w,
                ) by {
                    assert(!cellar_gives(d[j], name, w));
                }
                if let Some(v) = table::get(system_packages::cellar_packages(dirs), name) {
                    assert(cellar_gives(dirs[n], name, v));
                }
            },
        }
    }
}

/// Whether the entry is a valid package of that name and version.
pub open spec fn entry_gives(entry: (Text, Text), name: Text, v: Text) -> bool {
    entry == (name, v) && package_name::valid_name(name) && version::valid_version(v)
}

/// Whether entry `i` is the last valid one with that name, and gives this version.
pub open spec fn last_given(entries: Seq<(Text, Text)>, name: Text, v: Text, i: int) -> bool {
    &&& 0 <= i < entries.len()
    &&& entry_gives(entries[i], name, v)
    &&& forall|j: int, w: Text|
        i < j < entries.len() ==> !#[trigger] entry_gives(entries[j], name, w)
}

/// Of each name a list of entries gives the version of the last valid one with that name.
pub proof fn lemma_mapped(entries: Seq<(Text, Text)>, name: Text)
    ensures
        table::sorted(system_packages::mapped(entries)),
        table::get(system_packages::mapped(entries), name) is Some ==> exists|i: int| #[trigger]
            last_given(entries, name, table::get(system_packages::mapped(entries), name)->0, i),
        table::get(system_packages::mapped(entries), name) is None ==> forall|j: int, w: Text|
            0 <= j < entries.len() ==> !#[trigger] entry_gives(entries[j], name, w),
    decreases entries.len(),
{
    if entries.len() > 0 {
        let d = entries.drop_last();
        let n = entries.len() - 1;
        let t = system_packages::mapped(d);
        lemma_mapped(d, name);
        assert(forall|i: int| 0 <= i < d.len() ==> #[trigger] d[i] == entries[i]);
        table::lemma_put(t, entries[n].0, entries[n].1);
        if entry_gives(entries[n], name, entries[n].1) {
            let got = table::get(system_packages::mapped(entries), name);
            assert(got == Some(entries[n].1));
            assert(last_given(entries, name, got->0, n));
        } else {
            assert(table::get(system_packages::mapped(entries), name) == table::get(t, name));
            match table::get(t, name) {
                Some(v) => {
                    let i = choose|i: int| #[trigger] last_given(d, name, v, i);
                    assert forall|j: int, w: Text| i < j < entries.len() implies !#[trigger]
                    entry_gives(entries[j], name, w) by {
                        if j < n {
                            assert(!entry_gives(d[j], name, w));
                        }
                    }
                    let got = table::get(system_packages::mapped(entries), name);
                    assert(last_given(entries, name, got->0, i));
                },
                None => {
                    assert forall|j: int, w: Text| 0 <= j < entries.len() implies !#[trigger]
                    entry_gives(entries[j], name, w) by {
                        if j < n {
                            assert(!entry_gives(d[j], name, w));
                        }
                    }
                },
            }
        }
    }
}

/// A source that could not be read has no packages; one that could has those of its contents.
pub proof fn lemma_sources(contents: Text)
    ensures
        system_packages::dpkg_loaded(None).len() == 0,
        system_packages::apk_loaded(None).len() == 0,
        system_packages::dpkg_loaded(Some(contents)) == system_packages::dpkg_status(contents),
        system_packages::apk_loaded(Some(contents)) == system_packages::apk_installed(contents),
{
}

} // verus!
