//! What manifests, the index of packages, the database and the lockfile hold, stated of the positions
//! of what they are made from.

use vstd::prelude::*;
use vstd::string::*;

use crate::dep_constraint;
use crate::dep_constraint::{DepConstraintView, InvalidDepConstraintView};
use crate::lists;
use crate::manifest;
use crate::manifest::{
    ManifestView, ParseErrorView, ParseOrValidationErrorView, RawManifestView, ValidationErrorView,
};
use crate::package_name;
use crate::resolver::available;
use crate::resolver::available::Index;
use crate::resolver::plan;
use crate::resolver::plan::PlanStepView;
use crate::source;
use crate::storage::installed;
use crate::storage::installed::{InstalledEntryView, InstalledLoadErrorView};
use crate::storage::lockfile;
use crate::storage::lockfile::{LockfileLoadErrorView, LockfilePackageView};
use crate::storage::StoredView;
use crate::table;
use crate::text;
use crate::text::Text;
use crate::version;

verus! {

/// Whether text `i` is the first that writes no constraint, for that reason.
pub open spec fn first_bad(list: Seq<Text>, e: InvalidDepConstraintView, i: int) -> bool {
    &&& 0 <= i < list.len()
    &&& dep_constraint::parsed(list[i]) == Err::<DepConstraintView, _>(e)
    &&& forall|j: int| 0 <= j < i ==> dep_constraint::parsed(#[trigger] list[j]) is Ok
}

/// The constraints of a list are what its texts write, each in its place. Where one writes none, the
/// first such text gives the reason.
pub proof fn lemma_constraints(list: Seq<Text>)
    ensures
        manifest::parsed_constraints(list) matches Ok(all) ==> all.len() == list.len() && forall|
            i: int,
        |
            0 <= i < list.len() ==> dep_constraint::parsed(#[trigger] list[i]) == Ok::<
                _,
                InvalidDepConstraintView,
            >(all[i]),
        manifest::parsed_constraints(list) is Err ==> exists|i: int| #[trigger]
            first_bad(list, manifest::parsed_constraints(list)->Err_0, i),
    decreases list.len(),
{
    if list.len() > 0 {
        let d = list.drop_last();
        let n = list.len() - 1;
        lemma_constraints(d);
        assert(forall|i: int| 0 <= i < d.len() ==> #[trigger] d[i] == list[i]);
        match manifest::parsed_constraints(d) {
            Err(e) => {
                let i = choose|i: int| #[trigger] first_bad(d, e, i);
                assert forall|j: int| 0 <= j < i implies dep_constraint::parsed(
                    #[trigger] list[j],
                ) is Ok by {
                    assert(dep_constraint::parsed(d[j]) is Ok);
                }
                assert(first_bad(list, manifest::parsed_constraints(list)->Err_0, i));
            },
            Ok(front) => {
                assert forall|j: int| 0 <= j < n implies dep_constraint::parsed(
                    #[trigger] list[j],
                ) == Ok::<_, InvalidDepConstraintView>(front[j]) by {
                    assert(dep_constraint::parsed(d[j]) is Ok);
                }
                if dep_constraint::parsed(list[n]) is Err {
                    assert(first_bad(list, manifest::parsed_constraints(list)->Err_0, n));
                }
            },
        }
    }
}

/// Whether group `i` is the first in which a text writes no constraint, for that reason.
pub open spec fn first_bad_group(
    groups: Seq<Seq<Text>>,
    e: InvalidDepConstraintView,
    g: int,
    i: int,
) -> bool {
    &&& 0 <= g < groups.len()
    &&& first_bad(groups[g], e, i)
    &&& forall|h: int, j: int|
        0 <= h < g && 0 <= j < groups[h].len() ==> dep_constraint::parsed(
            #[trigger] groups[h][j],
        ) is Ok
}

/// The alternatives of a list are what its groups of texts write, each constraint in its place. Where
/// a text writes none, the first such text gives the reason.
pub proof fn lemma_groups(groups: Seq<Seq<Text>>)
    ensures
        manifest::parsed_groups(groups) matches Ok(all) ==> all.len() == groups.len() && forall|
            g: int,
        |
            0 <= g < groups.len() ==> (#[trigger] all[g]).len() == groups[g].len(),
        manifest::parsed_groups(groups) matches Ok(all) ==> forall|g: int, i: int|
            0 <= g < groups.len() && 0 <= i < groups[g].len() ==> dep_constraint::parsed(
                #[trigger] groups[g][i],
            ) == Ok::<_, InvalidDepConstraintView>(all[g][i]),
        manifest::parsed_groups(groups) is Err ==> exists|g: int, i: int| #[trigger]
            first_bad_group(groups, manifest::parsed_groups(groups)->Err_0, g, i),
    decreases groups.len(),
{
    if groups.len() > 0 {
        let d = groups.drop_last();
        let n = groups.len() - 1;
        lemma_groups(d);
        lemma_constraints(groups[n]);
        assert(forall|i: int| 0 <= i < d.len() ==> #[trigger] d[i] == groups[i]);
        match manifest::parsed_groups(d) {
            Err(e) => {
                let (g, i) = choose|g: int, i: int| #[trigger] first_bad_group(d, e, g, i);
                assert forall|h: int, j: int|
                    0 <= h < g && 0 <= j < groups[h].len() implies dep_constraint::parsed(
                    #[trigger] groups[h][j],
                ) is Ok by {
                    assert(dep_constraint::parsed(d[h][j]) is Ok);
                }
                assert(first_bad_group(groups, manifest::parsed_groups(groups)->Err_0, g, i));
            },
            Ok(front) => {
                assert forall|g: int, i: int|
                    0 <= g < n && 0 <= i < groups[g].len() implies dep_constraint::parsed(
                    #[trigger] groups[g][i],
                ) == Ok::<_, InvalidDepConstraintView>(front[g][i]) by {
                    assert(dep_constraint::parsed(d[g][i]) is Ok);
                }
                match manifest::parsed_constraints(groups[n]) {
                    Err(e) => {
                        let i = choose|i: int| #[trigger] first_bad(groups[n], e, i);
                        assert(first_bad_group(
                            groups,
                            manifest::parsed_groups(groups)->Err_0,
                            n,
                            i,
                        ));
                    },
                    Ok(own) => {
                        let all = manifest::parsed_groups(groups)->Ok_0;
                        assert(all == front.push(own));
                        assert forall|g: int, i: int|
                            0 <= g < groups.len() && 0 <= i
                                < groups[g].len() implies dep_constraint::parsed(
                            #[trigger] groups[g][i],
                        ) == Ok::<_, InvalidDepConstraintView>(all[g][i]) by {
                            if g < n {
                                assert(all[g] == front[g]);
                            }
                        }
                        assert forall|g: int| 0 <= g < groups.len() implies (#[trigger] all[g]).len()
                            == groups[g].len() by {
                            if g < n {
                                assert(all[g] == front[g]);
                            }
                        }
                    },
                }
            },
        }
    }
}

/// A list of names is kept as it is if all are valid; else the first that is not is named.
pub proof fn lemma_names_kept(list: Seq<Text>)
    ensures
        manifest::parsed_names(list) matches Ok(all) ==> all == list && forall|i: int|
            0 <= i < list.len() ==> package_name::valid_name(#[trigger] list[i]),
        manifest::parsed_names(list) is Err ==> exists|i: int|
            0 <= i < list.len() && #[trigger] list[i] == manifest::parsed_names(list)->Err_0
                && !package_name::valid_name(list[i]) && forall|j: int|
                0 <= j < i ==> package_name::valid_name(#[trigger] list[j]),
    decreases list.len(),
{
    if list.len() > 0 {
        let d = list.drop_last();
        let n = list.len() - 1;
        lemma_names_kept(d);
        assert(forall|i: int| 0 <= i < d.len() ==> #[trigger] d[i] == list[i]);
        match manifest::parsed_names(d) {
            Err(e) => {
                let i = choose|i: int|
                    0 <= i < d.len() && #[trigger] d[i] == e && !package_name::valid_name(d[i])
                        && forall|j: int| 0 <= j < i ==> package_name::valid_name(#[trigger] d[j]);
                assert(list[i] == manifest::parsed_names(list)->Err_0);
                assert forall|j: int| 0 <= j < i implies package_name::valid_name(
                    #[trigger] list[j],
                ) by {
                    assert(package_name::valid_name(d[j]));
                }
            },
            Ok(front) => {
                assert(front.push(list.last()) =~= list);
                assert forall|j: int| 0 <= j < n implies package_name::valid_name(
                    #[trigger] list[j],
                ) by {
                    assert(package_name::valid_name(d[j]));
                }
                if !package_name::valid_name(list[n]) {
                    assert(list[n] == manifest::parsed_names(list)->Err_0);
                }
            },
        }
    }
}

/// Whether all texts write constraints.
pub open spec fn all_constraints(list: Seq<Text>) -> bool {
    forall|i: int| 0 <= i < list.len() ==> dep_constraint::parsed(#[trigger] list[i]) is Ok
}

/// Whether the fields of a raw manifest can all be read.
pub open spec fn readable(raw: RawManifestView) -> bool {
    &&& package_name::valid_name(raw.name)
    &&& version::valid_version(raw.version)
    &&& source::parsed(raw.source.hash) is Ok
    &&& all_constraints(raw.depends)
    &&& forall|g: int| 0 <= g < raw.depends_any.len() ==> all_constraints(#[trigger] raw.depends_any[g])
    &&& all_constraints(raw.recommends)
    &&& forall|i: int|
        0 <= i < raw.conflicts.len() ==> package_name::valid_name(#[trigger] raw.conflicts[i])
}

/// A raw manifest gives a manifest exactly if its fields can all be read. That has the name, the
/// version, the source, the conflicts, the provided names, the files and the commands as they are
/// written, revision 0 where none is written, and the constraints as its texts write them, each in its
/// place.
pub proof fn lemma_converted(raw: RawManifestView)
    ensures
        manifest::converted(raw) is Ok == readable(raw),
        manifest::converted(raw) matches Ok(m) ==> {
            &&& m.name == raw.name
            &&& m.version == raw.version
            &&& raw.revision matches Some(n) ==> m.revision == n
            &&& raw.revision is None ==> m.revision == 0
            &&& m.source.kind == raw.source.kind
            &&& m.source.url == raw.source.url
            &&& source::parsed(raw.source.hash) == Ok::<_, source::InvalidSourceHashView>(
                m.source.hash,
            )
            &&& m.conflicts == raw.conflicts
            &&& m.provides == raw.provides
            &&& m.files == raw.files
            &&& m.commands == raw.commands
            &&& m.depends.len() == raw.depends.len()
            &&& m.recommends.len() == raw.recommends.len()
            &&& m.depends_any.len() == raw.depends_any.len()
            &&& forall|i: int|
                0 <= i < raw.depends.len() ==> dep_constraint::parsed(#[trigger] raw.depends[i])
                    == Ok::<_, InvalidDepConstraintView>(m.depends[i])
            &&& forall|i: int|
                0 <= i < raw.recommends.len() ==> dep_constraint::parsed(
                    #[trigger] raw.recommends[i],
                ) == Ok::<_, InvalidDepConstraintView>(m.recommends[i])
            &&& forall|g: int|
                0 <= g < raw.depends_any.len() ==> (#[trigger] m.depends_any[g]).len()
                    == raw.depends_any[g].len()
            &&& forall|g: int, i: int|
                0 <= g < raw.depends_any.len() && 0 <= i < raw.depends_any[g].len()
                    ==> dep_constraint::parsed(#[trigger] raw.depends_any[g][i]) == Ok::<
                    _,
                    InvalidDepConstraintView,
                >(m.depends_any[g][i])
        },
{
    lemma_constraints(raw.depends);
    lemma_groups(raw.depends_any);
    lemma_constraints(raw.recommends);
    lemma_names_kept(raw.conflicts);
    if manifest::parsed_constraints(raw.depends) is Err {
        let e = manifest::parsed_constraints(raw.depends)->Err_0;
        let i = choose|i: int| #[trigger] first_bad(raw.depends, e, i);
        assert(!(dep_constraint::parsed(raw.depends[i]) is Ok));
    }
    if manifest::parsed_constraints(raw.recommends) is Err {
        let e = manifest::parsed_constraints(raw.recommends)->Err_0;
        let i = choose|i: int| #[trigger] first_bad(raw.recommends, e, i);
        assert(!(dep_constraint::parsed(raw.recommends[i]) is Ok));
    }
    if manifest::parsed_groups(raw.depends_any) is Err {
        let e = manifest::parsed_groups(raw.depends_any)->Err_0;
        let (g, i) = choose|g: int, i: int| #[trigger] first_bad_group(raw.depends_any, e, g, i);
        assert(!(dep_constraint::parsed(raw.depends_any[g][i]) is Ok));
        assert(!all_constraints(raw.depends_any[g]));
    } else {
        assert forall|g: int| 0 <= g < raw.depends_any.len() implies all_constraints(
            #[trigger] raw.depends_any[g],
        ) by {
            assert forall|i: int| 0 <= i < raw.depends_any[g].len() implies dep_constraint::parsed(
                #[trigger] raw.depends_any[g][i],
            ) is Ok by {}
        }
    }
}

/// The first field of a raw manifest that cannot be read gives the reason: the name, the version, the
/// hash, the dependencies with the alternatives and the recommendations, the conflicts.
pub proof fn lemma_conversion_errors(raw: RawManifestView)
    ensures
        !package_name::valid_name(raw.name) ==> manifest::converted(raw) == Err::<ManifestView, _>(
            ParseErrorView::InvalidName(raw.name),
        ),
        package_name::valid_name(raw.name) && !version::valid_version(raw.version)
            ==> manifest::converted(raw) == Err::<ManifestView, _>(ParseErrorView::InvalidVersion),
        package_name::valid_name(raw.name) && version::valid_version(raw.version) && source::parsed(
            raw.source.hash,
        ) is Err ==> manifest::converted(raw) == Err::<ManifestView, _>(
            ParseErrorView::InvalidHash(source::parsed(raw.source.hash)->Err_0),
        ),
        package_name::valid_name(raw.name) && version::valid_version(raw.version) && source::parsed(
            raw.source.hash,
        ) is Ok && !all_constraints(raw.depends) ==> manifest::converted(raw) matches Err(
            ParseErrorView::InvalidDepConstraint(_),
        ),
{
    lemma_constraints(raw.depends);
}

/// Whether a path is safe: blank, or neither absolute nor with a part `..`.
pub open spec fn safe_path(entry: Text) -> bool {
    let path = text::trimmed(entry);
    path.len() > 0 ==> {
        &&& path[0] != '/'
        &&& forall|i: int|
            0 <= i < text::split(path, '/').len() ==> #[trigger] text::split(path, '/')[i]
                != ".."@
    }
}

/// Whether a source URL names one of the protocols.
pub open spec fn fetchable(url: Text) -> bool {
    ||| continues(text::trimmed(url), "http://"@)
    ||| continues(text::trimmed(url), "https://"@)
    ||| continues(text::trimmed(url), "file://"@)
}

/// Whether the text is the beginning and something more, or nothing more.
pub open spec fn continues(s: Text, beginning: Text) -> bool {
    exists|rest: Text| s == #[trigger] (beginning + rest)
}

proof fn lemma_paths_problem(entries: Seq<Text>)
    ensures
        manifest::paths_problem(entries) is None == (forall|i: int|
            0 <= i < entries.len() ==> safe_path(#[trigger] entries[i])),
        manifest::paths_problem(entries) matches Some(e) ==> e is InvalidPath,
        manifest::paths_problem(entries) matches Some(e) ==> exists|i: int|
            0 <= i < entries.len() && !safe_path(#[trigger] entries[i]) && e->InvalidPath_value
                == text::trimmed(entries[i]) && forall|j: int|
                0 <= j < i ==> safe_path(#[trigger] entries[j]),
    decreases entries.len(),
{
    if entries.len() > 0 {
        let d = entries.drop_last();
        let n = entries.len() - 1;
        let last = entries[n];
        lemma_paths_problem(d);
        assert(forall|i: int| 0 <= i < d.len() ==> #[trigger] d[i] == entries[i]);
        let pieces = text::split(text::trimmed(last), '/');
        assert(manifest::path_problem(last) is None == safe_path(last)) by {
            if pieces.contains(".."@) {
                let k = choose|k: int| 0 <= k < pieces.len() && pieces[k] == ".."@;
                assert(pieces[k] == ".."@);
            }
            if text::trimmed(last).len() > 0 && !safe_path(last) && text::trimmed(last)[0] != '/' {
                let k = choose|k: int| 0 <= k < pieces.len() && #[trigger] pieces[k] == ".."@;
                assert(pieces.contains(pieces[k]));
            }
        }
        match manifest::paths_problem(d) {
            Some(e) => {
                let i = choose|i: int|
                    0 <= i < d.len() && !safe_path(#[trigger] d[i]) && e->InvalidPath_value
                        == text::trimmed(d[i]) && forall|j: int|
                        0 <= j < i ==> safe_path(#[trigger] d[j]);
                assert(!safe_path(entries[i]));
                assert forall|j: int| 0 <= j < i implies safe_path(#[trigger] entries[j]) by {
                    assert(safe_path(d[j]));
                }
            },
            None => {
                assert forall|j: int| 0 <= j < n implies safe_path(#[trigger] entries[j]) by {
                    assert(safe_path(d[j]));
                }
            },
        }
    }
}

proof fn lemma_fetchable(url: Text)
    ensures
        manifest::url_problem(url) is None == fetchable(url),
        manifest::url_problem(url) matches Some(e) ==> e is InvalidSourceUrl
            && e->InvalidSourceUrl_value == url,
{
    let u = text::trimmed(url);
    reveal_strlit("http://");
    reveal_strlit("https://");
    reveal_strlit("file://");
    lemma_continues(u, "http://"@);
    lemma_continues(u, "https://"@);
    lemma_continues(u, "file://"@);
}

proof fn lemma_continues(s: Text, beginning: Text)
    ensures
        continues(s, beginning) == beginning.is_prefix_of(s),
{
    if beginning.is_prefix_of(s) {
        assert(s =~= beginning + s.skip(beginning.len() as int));
    }
    if continues(s, beginning) {
        let rest = choose|rest: Text| s == #[trigger] (beginning + rest);
        assert(beginning =~= s.subrange(0, beginning.len() as int));
    }
}

/// A manifest is valid exactly if its source URL begins with `http://`, `https://` or `file://` and
/// the paths of its files and commands are all safe. Else the URL is named if it is to blame, and
/// otherwise the first unsafe path, the files before the commands.
pub proof fn lemma_validated(m: ManifestView)
    ensures
        manifest::problem(m) is None == (fetchable(m.source.url) && (forall|i: int|
            0 <= i < m.files.len() ==> safe_path(#[trigger] m.files[i])) && (forall|i: int|
            0 <= i < m.commands.len() ==> safe_path(#[trigger] m.commands[i]))),
        !fetchable(m.source.url) ==> (manifest::problem(m) matches Some(
            ValidationErrorView::InvalidSourceUrl { value, .. },
        ) && value == m.source.url),
        fetchable(m.source.url) ==> (manifest::problem(m) matches Some(e) ==> e is InvalidPath),
{
    lemma_fetchable(m.source.url);
    lemma_paths_problem(m.files);
    lemma_paths_problem(m.commands);
}

/// The first unsafe path among the files of a manifest is the one that is named.
pub proof fn lemma_unsafe_path_named(m: ManifestView, i: int)
    requires
        fetchable(m.source.url),
        0 <= i < m.files.len(),
        !safe_path(m.files[i]),
        forall|j: int| 0 <= j < i ==> safe_path(#[trigger] m.files[j]),
    ensures
        manifest::problem(m) matches Some(ValidationErrorView::InvalidPath { value, .. }) && value
            == text::trimmed(m.files[i]),
{
    lemma_fetchable(m.source.url);
    lemma_paths_problem(m.files);
    let e = manifest::paths_problem(m.files)->0;
    let k = choose|k: int|
        0 <= k < m.files.len() && !safe_path(#[trigger] m.files[k]) && e->InvalidPath_value
            == text::trimmed(m.files[k]) && forall|j: int|
            0 <= j < k ==> safe_path(#[trigger] m.files[j]);
    assert(k == i);
}

/// What is read of a document is the manifest that it describes, if that is valid; a document that
/// could not be decoded, or that describes none, or an invalid one, is refused for that reason.
pub proof fn lemma_document(decoded: Result<RawManifestView, Text>)
    ensures
        manifest::parsed_and_validated(decoded) is Ok == (decoded matches Ok(raw) && (
        manifest::converted(raw) matches Ok(m) && manifest::problem(m) is None)),
        manifest::parsed_and_validated(decoded) matches Ok(m) ==> (decoded matches Ok(raw)
            && manifest::converted(raw) == Ok::<_, ParseErrorView>(m)),
        decoded matches Err(message) ==> manifest::parsed_and_validated(decoded) == Err::<
            ManifestView,
            _,
        >(ParseOrValidationErrorView::Parse(ParseErrorView::Toml(message))),
{
}

/// A package file is one whose name ends in `.toml` behind something.
pub proof fn lemma_package_files(stem: Text, name: Text)
    ensures
        manifest::package_file(stem + ".toml"@) == (stem.len() > 0),
        manifest::package_file(name) ==> exists|s: Text| s.len() > 0 && name == #[trigger] (s
            + ".toml"@),
{
    let ext = ".toml"@;
    reveal_strlit(".toml");
    let whole = stem + ext;
    assert(whole.subrange(whole.len() - ext.len(), whole.len() as int) =~= ext);
    if manifest::package_file(name) {
        let s = name.take(name.len() - ext.len());
        assert(name =~= s + ext);
    }
}

/// Loading packages keeps of a list of documents those that describe valid packages, in their order,
/// and drops the others one by one.
pub proof fn lemma_packages_loaded(
    a: Seq<Result<RawManifestView, Text>>,
    b: Seq<Result<RawManifestView, Text>>,
    document: Result<RawManifestView, Text>,
)
    ensures
        manifest::valid_packages(a + b) == manifest::valid_packages(a) + manifest::valid_packages(b),
        manifest::parsed_and_validated(document) matches Ok(m) ==> manifest::valid_packages(
            seq![document],
        ) == seq![m],
        manifest::parsed_and_validated(document) is Err ==> manifest::valid_packages(
            seq![document],
        ).len() == 0,
        manifest::valid_packages(Seq::empty()).len() == 0,
    decreases b.len(),
{
    let one = seq![document];
    assert(one.last() == document);
    assert(one.drop_last() =~= Seq::empty());
    assert(manifest::valid_packages(one.drop_last()) =~= Seq::empty());
    if let Ok(m) = manifest::parsed_and_validated(document) {
        assert(manifest::valid_packages(one) =~= seq![m]);
    }
    if b.len() == 0 {
        assert(a + b =~= a);
    } else {
        lemma_packages_loaded(a, b.drop_last(), document);
        assert((a + b).drop_last() =~= a + b.drop_last());
        assert((a + b).last() == b.last());
    }
    assert(manifest::valid_packages(a + b) =~= manifest::valid_packages(a)
        + manifest::valid_packages(b));
}

/// Whether package `i` is the last in the list with its name and version.
pub open spec fn last_release(packages: Seq<ManifestView>, i: int) -> bool {
    &&& 0 <= i < packages.len()
    &&& forall|j: int|
        i < j < packages.len() ==> (#[trigger] packages[j]).name != packages[i].name
            || packages[j].version != packages[i].version
}

proof fn lemma_last_of(packages: Seq<ManifestView>, name: Text, v: Text, i: int)
    ensures
        last_release(packages, i) && packages[i].name == name && packages[i].version == v
            ==> available::last_of(packages, name, v) == Some(packages[i]),
        available::last_of(packages, name, v) is Some ==> exists|k: int| #[trigger]
            last_release(packages, k) && packages[k].name == name && packages[k].version == v
                && available::last_of(packages, name, v) == Some(packages[k]),
    decreases packages.len(),
{
    if packages.len() > 0 {
        let d = packages.drop_last();
        let n = packages.len() - 1;
        lemma_last_of(d, name, v, i);
        assert(forall|k: int| 0 <= k < d.len() ==> #[trigger] d[k] == packages[k]);
        if packages[n].name == name && packages[n].version == v {
            assert(last_release(packages, n));
            if last_release(packages, i) && i < n {
                assert(packages[n].name != packages[i].name || packages[n].version
                    != packages[i].version);
            }
        } else {
            if last_release(packages, i) && i < n {
                assert forall|j: int| i < j < d.len() implies (#[trigger] d[j]).name != d[i].name
                    || d[j].version != d[i].version by {
                    assert(packages[j].name != packages[i].name || packages[j].version
                        != packages[i].version);
                }
                assert(last_release(d, i));
            }
            if available::last_of(d, name, v) is Some {
                let k = choose|k: int| #[trigger]
                    last_release(d, k) && d[k].name == name && d[k].version == v
                        && available::last_of(d, name, v) == Some(d[k]);
                assert forall|j: int| k < j < packages.len() implies (#[trigger] packages[j]).name
                    != packages[k].name || packages[j].version != packages[k].version by {
                    if j < n {
                        assert(d[j].name != d[k].name || d[j].version != d[k].version);
                    }
                }
                assert(last_release(packages, k));
            }
        }
    }
}

/// The index of a list of packages has, under each name, exactly the packages of that name, of those
/// with one version the last in the list. Names ascend, and so do the versions under a name.
pub proof fn lemma_index(packages: Seq<ManifestView>, m: ManifestView, i: int)
    ensures
        available::versions_of(available::indexed(packages), m.name).contains(m) ==> exists|k: int|
            #[trigger] last_release(packages, k) && packages[k] == m,
        last_release(packages, i) && packages[i] == m ==> available::versions_of(
            available::indexed(packages),
            m.name,
        ).contains(m),
        ({
            let t = available::indexed(packages);
            &&& forall|a: int, b: int|
                #![trigger t[a], t[b]]
                0 <= a < b < t.len() ==> text::text_lt(t[a].0, t[b].0)
            &&& forall|a: int, j: int|
                0 <= a < t.len() && 0 <= j < t[a].1.len() ==> (#[trigger] t[a].1[j]).name == t[a].0
            &&& forall|a: int, j: int, k: int|
                #![trigger t[a].1[j], t[a].1[k]]
                0 <= a < t.len() && 0 <= j < k < t[a].1.len() ==> !version::version_lt(
                    t[a].1[k].version,
                    t[a].1[j].version,
                ) && t[a].1[j].version != t[a].1[k].version
        }),
{
    let t = available::indexed(packages);
    available::lemma_index_holds_last(packages, m);
    lemma_last_of(packages, m.name, m.version, i);
    available::lemma_indexed(packages);
    assert forall|a: int, j: int, k: int|
        #![trigger t[a].1[j], t[a].1[k]]
        0 <= a < t.len() && 0 <= j < k < t[a].1.len() implies !version::version_lt(
        t[a].1[k].version,
        t[a].1[j].version,
    ) && t[a].1[j].version != t[a].1[k].version by {
        assert(available::versions_ascend(t[a].1));
        version::lemma_version_trichotomy(t[a].1[j].version, t[a].1[k].version);
    }
}

/// The providers of a name are the manifests of the index that list it, in the order of the index.
pub proof fn lemma_providers(t: Index, name: Text, m: ManifestView)
    ensures
        available::providers(t, name).contains(m) == (exists|k: int, j: int|
            0 <= k < t.len() && 0 <= j < t[k].1.len() && #[trigger] t[k].1[j] == m
                && m.provides.contains(name)),
    decreases t.len(),
{
    if t.len() > 0 {
        let d = t.drop_last();
        let n = t.len() - 1;
        let own = available::providing(t.last().1, name);
        lemma_providers(d, name, m);
        assert(forall|k: int| 0 <= k < d.len() ==> #[trigger] d[k] == t[k]);
        lists::lemma_concat_contains(available::providers(d, name), own, m);
        lists::lemma_filter(t.last().1, available::provides(name));
        if own.contains(m) {
            let j = choose|j: int| 0 <= j < t[n].1.len() && t[n].1[j] == m;
            assert(t[n].1[j] == m);
        }
        if available::providers(d, name).contains(m) {
            let (k, j) = choose|k: int, j: int|
                0 <= k < d.len() && 0 <= j < d[k].1.len() && #[trigger] d[k].1[j] == m
                    && m.provides.contains(name);
            assert(t[k].1[j] == m);
        }
        if exists|k: int, j: int|
            0 <= k < t.len() && 0 <= j < t[k].1.len() && #[trigger] t[k].1[j] == m
                && m.provides.contains(name) {
            let (k, j) = choose|k: int, j: int|
                0 <= k < t.len() && 0 <= j < t[k].1.len() && #[trigger] t[k].1[j] == m
                    && m.provides.contains(name);
            if k < n {
                assert(d[k].1[j] == m);
            } else {
                assert(t.last().1.contains(t.last().1[j]));
            }
        }
    }
}

/// Whether entry `i` is the last in the list with the name.
pub open spec fn last_named(entries: Seq<InstalledEntryView>, name: Text, i: int) -> bool {
    &&& 0 <= i < entries.len()
    &&& entries[i].name == name
    &&& forall|j: int| i < j < entries.len() ==> (#[trigger] entries[j]).name != name
}

proof fn lemma_by_name_last(entries: Seq<InstalledEntryView>, name: Text, i: int)
    ensures
        last_named(entries, name, i) ==> table::get(installed::by_name(entries), name) == Some(
            entries[i],
        ),
        (forall|j: int| 0 <= j < entries.len() ==> (#[trigger] entries[j]).name != name)
            ==> table::get(installed::by_name(entries), name) is None,
    decreases entries.len(),
{
    if entries.len() > 0 {
        let d = entries.drop_last();
        let n = entries.len() - 1;
        let last = entries[n];
        lemma_by_name_last(d, name, i);
        installed::lemma_by_name(d);
        table::lemma_put(installed::by_name(d), last.name, last);
        assert(forall|k: int| 0 <= k < d.len() ==> #[trigger] d[k] == entries[k]);
        if last_named(entries, name, i) && i < n {
            assert(entries[n].name != name);
            assert forall|j: int| i < j < d.len() implies (#[trigger] d[j]).name != name by {
                assert(entries[j].name != name);
            }
            assert(last_named(d, name, i));
        }
        if forall|j: int| 0 <= j < entries.len() ==> (#[trigger] entries[j]).name != name {
            assert(entries[n].name != name);
            assert forall|j: int| 0 <= j < d.len() implies (#[trigger] d[j]).name != name by {
                assert(entries[j].name != name);
            }
        }
    }
}

/// A database has one entry for each name that the entries have, the last of them, and its names
/// ascend.
pub proof fn lemma_database(entries: Seq<InstalledEntryView>, name: Text, i: int)
    ensures
        last_named(entries, name, i) ==> installed::entry_of(installed::database(entries), name)
            == Some(entries[i]),
        (forall|j: int| 0 <= j < entries.len() ==> (#[trigger] entries[j]).name != name)
            ==> installed::entry_of(installed::database(entries), name) is None,
        ({
            let d = installed::database(entries);
            forall|a: int, b: int|
                #![trigger d[a], d[b]]
                0 <= a < b < d.len() ==> text::text_lt(d[a].name, d[b].name)
        }),
{
    lemma_by_name_last(entries, name, i);
    installed::lemma_by_name(entries);
    installed::lemma_entry_of_values(installed::by_name(entries), name);
    installed::lemma_database_ascends(entries);
}

/// The lockfile of a plan has an entry for each step, in its place, with the name, the version, the
/// revision and the source of the step.
pub proof fn lemma_plan_lockfile(steps: Seq<PlanStepView>, i: int)
    ensures
        plan::plan_lockfile(steps).len() == steps.len(),
        0 <= i < steps.len() ==> plan::plan_lockfile(steps)[i].name == steps[i].name
            && plan::plan_lockfile(steps)[i].version == steps[i].version
            && plan::plan_lockfile(steps)[i].revision == steps[i].revision
            && plan::plan_lockfile(steps)[i].source == steps[i].source,
{
}

/// Nothing stored is an empty database and no lockfile. What cannot be read, or is malformed, is an
/// error; a document gives its entries, for the database by name.
pub proof fn lemma_loaded(
    entries: Seq<InstalledEntryView>,
    packages: Seq<LockfilePackageView>,
    e: Text,
)
    ensures
        installed::loaded(StoredView::Missing) matches Ok(d) && d.len() == 0,
        installed::loaded(StoredView::Document(entries)) == Ok::<_, InstalledLoadErrorView>(
            installed::database(entries),
        ),
        installed::loaded(StoredView::Unreadable(e)) == Err::<Seq<InstalledEntryView>, _>(
            InstalledLoadErrorView::Io(e),
        ),
        installed::loaded(StoredView::Malformed(e)) == Err::<Seq<InstalledEntryView>, _>(
            InstalledLoadErrorView::Parse(e),
        ),
        lockfile::loaded(StoredView::Missing) matches Ok(None),
        lockfile::loaded(StoredView::Document(packages)) == Ok::<_, LockfileLoadErrorView>(
            Some(packages),
        ),
        lockfile::loaded(StoredView::Unreadable(e)) == Err::<
            Option<Seq<LockfilePackageView>>,
            _,
        >(LockfileLoadErrorView::Io(e)),
        lockfile::loaded(StoredView::Malformed(e)) == Err::<Option<Seq<LockfilePackageView>>, _>(
            LockfileLoadErrorView::Parse(e),
        ),
{
}

/// The lockfile entries of a name are exactly the entries with that name.
pub proof fn lemma_locked_for(
    packages: Seq<LockfilePackageView>,
    name: Text,
    p: LockfilePackageView,
)
    ensures
        lockfile::locked_for(packages, name).contains(p) == (packages.contains(p) && p.name
            == name),
{
    lists::lemma_filter(packages, lockfile::named(name));
}

} // verus!
