//! `sic status`: the installed packages, and how they stand to the lockfile.

use vstd::prelude::*;
use vstd::string::*;

use crate::cli::args::{GlobalOpts, OutputFormatArg};
use crate::cli::output;
use crate::cli::output::{Output, OutputView, EXIT_OK, EXIT_OTHER};
use crate::documents;
use crate::documents::{Row, RowView, Scalar, ScalarView};
use crate::storage::installed::{InstalledEntryView, InstalledLoadErrorView};
use crate::storage::lockfile;
use crate::storage::lockfile::{LockfileLoadErrorView, LockfilePackageView};
use crate::storage::{InstalledDb, InstalledEntry, InstalledLoadError, Lockfile, LockfileLoadError};
use crate::text;
use crate::text::Text;
use crate::version::Version;
use crate::views;

verus! {

/// Lockfile status for one installed package: match, mismatch (locked vs installed), or not in
/// lockfile.
#[derive(Clone, Copy, Debug, Eq, PartialEq, Structural)]
pub enum LockfileStatus {
    Match,
    Mismatch,
    NotInLockfile,
}

/// The lockfile status of an installed package and the locked version: the first entry with its
/// name counts.
pub open spec fn lockfile_info(
    e: InstalledEntryView,
    packages: Seq<LockfilePackageView>,
) -> (LockfileStatus, Option<Text>) {
    let locked = lockfile::locked_for(packages, e.name);
    if locked.len() == 0 {
        (LockfileStatus::NotInLockfile, None)
    } else if locked[0].version == e.version {
        (LockfileStatus::Match, Some(locked[0].version))
    } else {
        (LockfileStatus::Mismatch, Some(locked[0].version))
    }
}

/// Returns (lockfile_status, locked_version) for an installed entry when a lockfile is present.
pub fn status_lockfile_info(entry: &InstalledEntry, lockfile: &Lockfile) -> (r: (
    LockfileStatus,
    Option<Version>,
))
    ensures
        (r.0, r.1.deep_view()) == lockfile_info(entry@, lockfile@),
{
    let locked = lockfile.packages_for_name(&entry.name);
    assert(locked.deep_view().len() == locked@.len());
    if locked.len() == 0 {
        return (LockfileStatus::NotInLockfile, None);
    }
    assert(locked.deep_view()[0] == locked@[0]@);
    let version = locked[0].version.clone();
    if text::same_text(version.as_str(), entry.version.as_str()) {
        (LockfileStatus::Match, Some(version))
    } else {
        (LockfileStatus::Mismatch, Some(version))
    }
}

/// The status as it is written in documents.
pub open spec fn status_text(status: LockfileStatus) -> Text {
    match status {
        LockfileStatus::Match => "match"@,
        LockfileStatus::Mismatch => "mismatch"@,
        LockfileStatus::NotInLockfile => "not_in_lockfile"@,
    }
}

/// What the row of an installed package says of the lockfile.
pub open spec fn lock_fields(
    e: InstalledEntryView,
    packages: Option<Seq<LockfilePackageView>>,
) -> RowView {
    match packages {
        None => Seq::empty(),
        Some(packages) => {
            let (status, locked) = lockfile_info(e, packages);
            let last = ("lockfile_status"@, ScalarView::Text(status_text(status)));
            match locked {
                Some(v) => seq![("locked_version"@, ScalarView::Text(v)), last],
                None => seq![last],
            }
        },
    }
}

/// The row of an installed package, by key.
pub open spec fn status_row(
    e: InstalledEntryView,
    packages: Option<Seq<LockfilePackageView>>,
) -> RowView {
    seq![("install_path"@, ScalarView::Text(e.install_path))] + lock_fields(e, packages) + seq![
        ("name"@, ScalarView::Text(e.name)),
        ("revision"@, ScalarView::Number(e.revision)),
        ("version"@, ScalarView::Text(e.version)),
    ]
}

/// The rows of the installed packages.
pub open spec fn status_rows(
    entries: Seq<InstalledEntryView>,
    packages: Option<Seq<LockfilePackageView>>,
) -> Seq<RowView> {
    entries.map_values(|e: InstalledEntryView| status_row(e, packages))
}

/// The line of an installed package.
pub open spec fn status_line(
    e: InstalledEntryView,
    packages: Option<Seq<LockfilePackageView>>,
) -> Text {
    let start = e.name + "\t"@ + e.version;
    let rest = match packages {
        None => Seq::empty(),
        Some(packages) => match lockfile_info(e, packages) {
            (LockfileStatus::Match, Some(v)) => "\t(locked "@ + v + ")"@,
            (LockfileStatus::Mismatch, Some(v)) => "\tlocked "@ + v + ", installed "@ + e.version,
            _ => "\t(not in lockfile)"@,
        },
    };
    start + rest + "\n"@
}

/// The lines of the installed packages.
pub open spec fn status_lines(
    entries: Seq<InstalledEntryView>,
    packages: Option<Seq<LockfilePackageView>>,
) -> Text
    decreases entries.len(),
{
    if entries.len() == 0 {
        Seq::empty()
    } else {
        status_lines(entries.drop_last(), packages) + status_line(entries.last(), packages)
    }
}

/// What `sic status` prints.
pub open spec fn status_output(
    format: OutputFormatArg,
    use_color: bool,
    installed: Result<Seq<InstalledEntryView>, InstalledLoadErrorView>,
    lockfile_path: Text,
    lockfile: Result<Option<Seq<LockfilePackageView>>, LockfileLoadErrorView>,
) -> OutputView {
    match (installed, lockfile) {
        (Err(e), _) => output::failed(output::unloadable_installed(e), use_color, EXIT_OTHER),
        (Ok(_), Err(e)) => output::failed(
            output::unloadable_lockfile(lockfile_path, e),
            use_color,
            EXIT_OTHER,
        ),
        (Ok(entries), Ok(packages)) => match format {
            OutputFormatArg::Json => output::printed(
                documents::json_text(documents::rows_tree(status_rows(entries, packages))),
                use_color,
                EXIT_OK,
            ),
            OutputFormatArg::Toml => output::printed(
                documents::toml_text(
                    documents::sections_tree(seq![("packages"@, status_rows(entries, packages))]),
                ),
                use_color,
                EXIT_OK,
            ),
            OutputFormatArg::Human => output::succeeded(status_lines(entries, packages)),
        },
    }
}

fn make_row(e: &InstalledEntry, lockfile: Option<&Lockfile>) -> (r: Row)
    ensures
        r.deep_view() == status_row(e@, lockfile.deep_view()),
{
    let mut row: Row = vec![("install_path".to_owned(), Scalar::Text(e.install_path.clone()))];
    if let Some(lockfile) = lockfile {
        let (status, locked) = status_lockfile_info(e, lockfile);
        let status = match status {
            LockfileStatus::Match => "match",
            LockfileStatus::Mismatch => "mismatch",
            LockfileStatus::NotInLockfile => "not_in_lockfile",
        };
        if let Some(v) = locked {
            row.push(("locked_version".to_owned(), Scalar::Text(v.to_string())));
        }
        row.push(("lockfile_status".to_owned(), Scalar::Text(status.to_owned())));
    }
    row.push(("name".to_owned(), Scalar::Text(e.name.to_string())));
    row.push(("revision".to_owned(), Scalar::Number(e.revision)));
    row.push(("version".to_owned(), Scalar::Text(e.version.to_string())));
    assert(row.deep_view() =~= status_row(e@, lockfile.deep_view()));
    row
}

/// The rows of the installed packages.
pub fn make_rows(entries: &Vec<InstalledEntry>, lockfile: Option<&Lockfile>) -> (r: Vec<Row>)
    ensures
        r.deep_view() == status_rows(entries.deep_view(), lockfile.deep_view()),
{
    let mut rows: Vec<Row> = Vec::new();
    let mut i: usize = 0;
    while i < entries.len()
        invariant
            i <= entries@.len(),
            rows@.len() == i,
            forall|j: int|
                0 <= j < i ==> (#[trigger] rows@[j]).deep_view() == status_row(
                    entries@[j]@,
                    lockfile.deep_view(),
                ),
        decreases entries@.len() - i,
    {
        rows.push(make_row(&entries[i], lockfile));
        i += 1;
    }
    assert(rows.deep_view() =~= status_rows(entries.deep_view(), lockfile.deep_view()));
    rows
}

fn make_line(e: &InstalledEntry, lockfile: Option<&Lockfile>) -> (r: String)
    ensures
        r@ == status_line(e@, lockfile.deep_view()),
{
    let mut line = e.name.to_string().concat("\t").concat(e.version.as_str());
    let ghost start = line@;
    if let Some(lockfile) = lockfile {
        let rest = match status_lockfile_info(e, lockfile) {
            (LockfileStatus::Match, Some(v)) => "\t(locked ".to_owned().concat(v.as_str()).concat(
                ")",
            ),
            (LockfileStatus::Mismatch, Some(v)) => "\tlocked ".to_owned().concat(
                v.as_str(),
            ).concat(", installed ").concat(e.version.as_str()),
            _ => "\t(not in lockfile)".to_owned(),
        };
        line = line.concat(rest.as_str());
    } else {
        assert(start =~= start + Seq::empty());
    }
    line.concat("\n")
}

/// Prints status (installed packages). When a lockfile is present, shows locked vs installed.
pub fn run_status(
    global: &GlobalOpts,
    use_color: bool,
    installed: Result<InstalledDb, InstalledLoadError>,
    lockfile_path: &str,
    lockfile: Result<Option<Lockfile>, LockfileLoadError>,
) -> (r: Output)
    ensures
        r@ == status_output(
            global.output,
            use_color,
            views::result_view(installed),
            lockfile_path@,
            views::result_view(lockfile),
        ),
{
    let installed = match installed {
        Ok(db) => db,
        Err(e) => {
            return output::fail(
                output::unloadable_installed_message(&e).as_str(),
                use_color,
                EXIT_OTHER,
            );
        },
    };
    let lockfile = match lockfile {
        Ok(lockfile) => lockfile,
        Err(e) => {
            return output::fail(
                output::unloadable_lockfile_message(lockfile_path, &e).as_str(),
                use_color,
                EXIT_OTHER,
            );
        },
    };
    let lockfile: Option<&Lockfile> = match &lockfile {
        Some(lockfile) => Some(lockfile),
        None => None,
    };
    let entries = installed.list_all();
    match global.output {
        OutputFormatArg::Json => output::print_document(
            documents::rows_to_json(&make_rows(entries, lockfile)),
            use_color,
            EXIT_OK,
        ),
        OutputFormatArg::Toml => {
            let rows = make_rows(entries, lockfile);
            let ghost rv = rows.deep_view();
            let sections = vec![("packages".to_owned(), rows)];
            assert(sections.deep_view() =~= seq![("packages"@, rv)]);
            output::print_document(documents::sections_to_toml(&sections), use_color, EXIT_OK)
        },
        OutputFormatArg::Human => {
            let ghost all = entries.deep_view();
            let mut out = String::new();
            let mut i: usize = 0;
            assert(out@ =~= Seq::empty());
            while i < entries.len()
                invariant
                    i <= entries@.len(),
                    all == entries.deep_view(),
                    out@ == status_lines(all.take(i as int), lockfile.deep_view()),
                decreases entries@.len() - i,
            {
                assert(all[i as int] == entries@[i as int]@);
                assert(all.take(i + 1).drop_last() == all.take(i as int));
                out.append(make_line(&entries[i], lockfile).as_str());
                i += 1;
            }
            assert(all.take(all.len() as int) == all);
            output::succeed(out)
        },
    }
}

} // verus!
