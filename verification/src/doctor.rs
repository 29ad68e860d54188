//! sic doctor: check layout, lockfile vs installed, broken symlinks.

use vstd::prelude::*;
use vstd::string::*;

use crate::prefix;
use crate::prefix::Found;
use crate::storage::installed;
use crate::storage::installed::{InstalledEntryView, InstalledLoadErrorView};
use crate::storage::lockfile;
use crate::storage::lockfile::{LockfileLoadErrorView, LockfilePackageView};
use crate::storage::{InstalledDb, InstalledEntry, InstalledLoadError, Lockfile, LockfileLoadError};
use crate::text;
use crate::text::Text;
use crate::views;

verus! {

/// Per-check result for output.
#[derive(Clone, Debug, Eq, PartialEq)]
pub struct DoctorCheckResult {
    pub ok: bool,
    pub issues: Vec<String>,
}

/// What a [`DoctorCheckResult`] holds.
pub struct DoctorCheckResultView {
    pub ok: bool,
    pub issues: Seq<Text>,
}

impl DeepView for DoctorCheckResult {
    type V = DoctorCheckResultView;

    open spec fn deep_view(&self) -> DoctorCheckResultView {
        DoctorCheckResultView { ok: self.ok, issues: self.issues.deep_view() }
    }
}

/// Full doctor result: layout, lockfile vs installed, symlinks.
#[derive(Clone, Debug, Eq, PartialEq)]
pub struct DoctorResult {
    pub layout: DoctorCheckResult,
    pub lockfile: DoctorCheckResult,
    pub symlinks: DoctorCheckResult,
}

/// What a [`DoctorResult`] holds.
pub struct DoctorResultView {
    pub layout: DoctorCheckResultView,
    pub lockfile: DoctorCheckResultView,
    pub symlinks: DoctorCheckResultView,
}

impl DeepView for DoctorResult {
    type V = DoctorResultView;

    open spec fn deep_view(&self) -> DoctorResultView {
        DoctorResultView {
            layout: self.layout.deep_view(),
            lockfile: self.lockfile.deep_view(),
            symlinks: self.symlinks.deep_view(),
        }
    }
}

impl View for DoctorResult {
    type V = DoctorResultView;

    open spec fn view(&self) -> DoctorResultView {
        self.deep_view()
    }
}

impl DoctorResult {
    /// Whether all checks are ok.
    pub fn overall_ok(&self) -> (r: bool)
        ensures
            r == (self.layout.ok && self.lockfile.ok && self.symlinks.ok),
    {
        self.layout.ok && self.lockfile.ok && self.symlinks.ok
    }
}

/// A check with the issues: ok if there are none.
pub open spec fn check_of(issues: Seq<Text>) -> (bool, Seq<Text>) {
    (issues.len() == 0, issues)
}

/// Runs layout check, given what stands where each directory of the layout belongs, and returns
/// (ok, issues).
pub fn run_layout_check(found: &Vec<Found>) -> (r: (bool, Vec<String>))
    requires
        found@.len() == prefix::layout().len(),
    ensures
        (r.0, r.1.deep_view()) == check_of(
            prefix::layout_issues(found@, prefix::layout().len()),
        ),
{
    let r = prefix::check_layout(found);
    assert(r.1.deep_view().len() == r.1@.len());
    r
}

/// Where the lockfile is looked for.
#[derive(Clone, Copy, Debug, Eq, PartialEq, Structural)]
pub enum LockfileChoice {
    /// At the explicit path.
    Explicit,
    /// At prefix/sic.lock.
    InPrefix,
    /// Nowhere.
    Absent,
}

/// Resolves lockfile path: explicit path if present, else prefix/sic.lock if it is a file.
pub fn resolve_lockfile_path(has_override: bool, prefix_has_lockfile: bool) -> (r: LockfileChoice)
    ensures
        r == if has_override {
            LockfileChoice::Explicit
        } else if prefix_has_lockfile {
            LockfileChoice::InPrefix
        } else {
            LockfileChoice::Absent
        },
{
    if has_override {
        LockfileChoice::Explicit
    } else if prefix_has_lockfile {
        LockfileChoice::InPrefix
    } else {
        LockfileChoice::Absent
    }
}

/// What is wrong with an installed package by the lockfile, if anything: the first entry with its
/// name counts.
pub open spec fn lock_issue(packages: Seq<LockfilePackageView>, e: InstalledEntryView) -> Option<
    Text,
> {
    let locked = lockfile::locked_for(packages, e.name);
    if locked.len() == 0 {
        Some(e.name + ": not in lockfile"@)
    } else if locked[0].version != e.version {
        Some(
            e.name + ": version mismatch (installed "@ + e.version + ", locked "@
                + locked[0].version + ")"@,
        )
    } else {
        None
    }
}

/// What is wrong with the installed packages by the lockfile.
pub open spec fn lock_issues(
    packages: Seq<LockfilePackageView>,
    entries: Seq<InstalledEntryView>,
) -> Seq<Text>
    decreases entries.len(),
{
    if entries.len() == 0 {
        Seq::empty()
    } else {
        let front = lock_issues(packages, entries.drop_last());
        match lock_issue(packages, entries.last()) {
            Some(issue) => front.push(issue),
            None => front,
        }
    }
}

/// The check of the lockfile, where there is one, against the installed packages.
pub open spec fn lockfile_check(
    lockfile: Result<Option<Seq<LockfilePackageView>>, LockfileLoadErrorView>,
    installed: Result<Seq<InstalledEntryView>, InstalledLoadErrorView>,
) -> (bool, Seq<Text>) {
    match lockfile {
        Err(e) => check_of(seq!["lockfile error: "@ + lockfile::load_error_text(e)]),
        Ok(None) => check_of(Seq::empty()),
        Ok(Some(packages)) => match installed {
            Err(e) => check_of(
                seq!["failed to load installed.toml: "@ + installed::load_error_text(e)],
            ),
            Ok(entries) => check_of(lock_issues(packages, entries)),
        },
    }
}

fn one_issue(issue: String) -> (r: (bool, Vec<String>))
    ensures
        (r.0, r.1.deep_view()) == check_of(seq![issue@]),
{
    let issues = vec![issue];
    assert(issues.deep_view() =~= seq![issue@]);
    (false, issues)
}

fn no_issue() -> (r: (bool, Vec<String>))
    ensures
        (r.0, r.1.deep_view()) == check_of(Seq::empty()),
{
    let issues: Vec<String> = Vec::new();
    assert(issues.deep_view() =~= Seq::empty());
    (true, issues)
}

/// Runs lockfile vs installed check. Without a lockfile, returns (true, []).
/// Otherwise reports mismatches / not in lockfile.
pub fn run_lockfile_check(
    lockfile: &Result<Option<Lockfile>, LockfileLoadError>,
    installed: &Result<InstalledDb, InstalledLoadError>,
) -> (r: (bool, Vec<String>))
    ensures
        (r.0, r.1.deep_view()) == lockfile_check(
            views::result_view(*lockfile),
            views::result_view(*installed),
        ),
{
    let lockfile = match lockfile {
        Ok(Some(lockfile)) => lockfile,
        Ok(None) => {
            return no_issue();
        },
        Err(e) => {
            return one_issue("lockfile error: ".to_owned().concat(e.to_string().as_str()));
        },
    };
    let installed = match installed {
        Ok(db) => db,
        Err(e) => {
            return one_issue(
                "failed to load installed.toml: ".to_owned().concat(e.to_string().as_str()),
            );
        },
    };
    let entries = installed.list_all();
    let ghost all = installed@;
    let mut issues: Vec<String> = Vec::new();
    let mut i: usize = 0;
    assert(issues.deep_view() =~= Seq::empty());
    while i < entries.len()
        invariant
            i <= entries@.len(),
            all == entries.deep_view(),
            issues.deep_view() == lock_issues(lockfile@, all.take(i as int)),
        decreases entries@.len() - i,
    {
        let ghost before = issues.deep_view();
        assert(all[i as int] == entries@[i as int]@);
        assert(all.take(i + 1).drop_last() == all.take(i as int));
        if let Some(issue) = find_lock_issue(lockfile, &entries[i]) {
            let ghost iv = issue@;
            issues.push(issue);
            assert(issues.deep_view() =~= before.push(iv));
        }
        i += 1;
    }
    assert(all.take(all.len() as int) == all);
    assert(issues.deep_view().len() == issues@.len());
    (issues.len() == 0, issues)
}

fn find_lock_issue(lockfile: &Lockfile, e: &InstalledEntry) -> (r: Option<String>)
    ensures
        r.deep_view() == lock_issue(lockfile@, e@),
{
    let locked = lockfile.packages_for_name(&e.name);
    assert(locked.deep_view().len() == locked@.len());
    if locked.len() == 0 {
        return Some(e.name.to_string().concat(": not in lockfile"));
    }
    assert(locked.deep_view()[0] == locked@[0]@);
    if !text::same_text(locked[0].version.as_str(), e.version.as_str()) {
        return Some(
            e.name.to_string().concat(": version mismatch (installed ").concat(
                e.version.as_str(),
            ).concat(", locked ").concat(locked[0].version.as_str()).concat(")"),
        );
    }
    None
}

/// What was seen at the path of a file.
#[derive(Debug, Eq, PartialEq)]
pub enum FileSeen {
    /// Nothing is there.
    Missing,
    /// Something that is not a link.
    Plain,
    /// A link that could not be read.
    UnreadableLink,
    /// A link: its target, and whether that exists.
    Link { target: String, exists: bool },
}

/// What a [`FileSeen`] holds.
pub enum FileSeenView {
    Missing,
    Plain,
    UnreadableLink,
    Link { target: Text, exists: bool },
}

impl DeepView for FileSeen {
    type V = FileSeenView;

    open spec fn deep_view(&self) -> FileSeenView {
        match self {
            FileSeen::Missing => FileSeenView::Missing,
            FileSeen::Plain => FileSeenView::Plain,
            FileSeen::UnreadableLink => FileSeenView::UnreadableLink,
            FileSeen::Link { target, exists } => FileSeenView::Link {
                target: target@,
                exists: *exists,
            },
        }
    }
}

/// What was seen of an installed package: whether its directory is there, and each of its files in
/// order.
#[derive(Debug, Eq, PartialEq)]
pub struct PackageSeen {
    pub dir_exists: bool,
    pub files: Vec<FileSeen>,
}

/// What a [`PackageSeen`] holds.
pub struct PackageSeenView {
    pub dir_exists: bool,
    pub files: Seq<FileSeenView>,
}

impl DeepView for PackageSeen {
    type V = PackageSeenView;

    open spec fn deep_view(&self) -> PackageSeenView {
        PackageSeenView { dir_exists: self.dir_exists, files: self.files.deep_view() }
    }
}

/// What is wrong with a file of a package, if anything.
pub open spec fn file_issue(install_path: Text, file: Text, seen: FileSeenView) -> Option<Text> {
    match seen {
        FileSeenView::Missing => Some("missing: "@ + install_path + "/"@ + file),
        FileSeenView::Plain => None,
        FileSeenView::UnreadableLink => Some(
            "broken symlink: "@ + install_path + "/"@ + file + " (read failed)"@,
        ),
        FileSeenView::Link { target, exists } => if exists {
            None
        } else {
            Some("broken symlink: "@ + install_path + "/"@ + file + " -> "@ + target)
        },
    }
}

/// What is wrong with the first `n` files of a package.
pub open spec fn file_issues(
    install_path: Text,
    files: Seq<Text>,
    seen: Seq<FileSeenView>,
    n: nat,
) -> Seq<Text>
    decreases n,
{
    if n == 0 {
        Seq::empty()
    } else {
        let front = file_issues(install_path, files, seen, (n - 1) as nat);
        match file_issue(install_path, files[n - 1], seen[n - 1]) {
            Some(issue) => front.push(issue),
            None => front,
        }
    }
}

/// What is wrong with the files of a package.
pub open spec fn package_issues(e: InstalledEntryView, seen: PackageSeenView) -> Seq<Text> {
    if !seen.dir_exists {
        seq!["package dir missing: "@ + e.install_path]
    } else {
        file_issues(e.install_path, e.files, seen.files, e.files.len())
    }
}

/// What is wrong with the files of the first `n` packages.
pub open spec fn packages_issues(
    entries: Seq<InstalledEntryView>,
    seen: Seq<PackageSeenView>,
    n: nat,
) -> Seq<Text>
    decreases n,
{
    if n == 0 {
        Seq::empty()
    } else {
        packages_issues(entries, seen, (n - 1) as nat) + package_issues(
            entries[n - 1],
            seen[n - 1],
        )
    }
}

/// What is wrong with an entry of the bin directory, if anything.
pub open spec fn bin_issue(name: Text, seen: FileSeenView) -> Option<Text> {
    match seen {
        FileSeenView::UnreadableLink => Some("broken bin symlink: bin/"@ + name + " (read failed)"@),
        FileSeenView::Link { target, exists } => if exists {
            None
        } else {
            Some("broken bin symlink: bin/"@ + name + " -> "@ + target)
        },
        _ => None,
    }
}

/// What is wrong with the entries of the bin directory.
pub open spec fn bin_issues(bin: Seq<(Text, FileSeenView)>) -> Seq<Text>
    decreases bin.len(),
{
    if bin.len() == 0 {
        Seq::empty()
    } else {
        let front = bin_issues(bin.drop_last());
        match bin_issue(bin.last().0, bin.last().1) {
            Some(issue) => front.push(issue),
            None => front,
        }
    }
}

/// Whether there is something seen for each package, and for each file of a package whose
/// directory is there.
pub open spec fn seen_fits(entries: Seq<InstalledEntryView>, seen: Seq<PackageSeenView>) -> bool {
    &&& seen.len() == entries.len()
    &&& forall|i: int|
        0 <= i < seen.len() && (#[trigger] seen[i]).dir_exists ==> seen[i].files.len()
            == entries[i].files.len()
}

/// The check for broken symlinks; ok where the installed packages are not known.
pub open spec fn symlinks_check(
    installed: Option<Seq<InstalledEntryView>>,
    seen: Seq<PackageSeenView>,
    bin: Seq<(Text, FileSeenView)>,
) -> (bool, Seq<Text>) {
    match installed {
        None => check_of(Seq::empty()),
        Some(entries) => check_of(
            packages_issues(entries, seen, entries.len()) + bin_issues(bin),
        ),
    }
}

fn find_file_issue(install_path: &str, file: &str, seen: &FileSeen) -> (r: Option<String>)
    ensures
        r.deep_view() == file_issue(install_path@, file@, seen.deep_view()),
{
    match seen {
        FileSeen::Missing => Some(
            "missing: ".to_owned().concat(install_path).concat("/").concat(file),
        ),
        FileSeen::Plain => None,
        FileSeen::UnreadableLink => Some(
            "broken symlink: ".to_owned().concat(install_path).concat("/").concat(file).concat(
                " (read failed)",
            ),
        ),
        FileSeen::Link { target, exists } => {
            if *exists {
                None
            } else {
                Some(
                    "broken symlink: ".to_owned().concat(install_path).concat("/").concat(
                        file,
                    ).concat(" -> ").concat(target.as_str()),
                )
            }
        },
    }
}

fn find_bin_issue(name: &str, seen: &FileSeen) -> (r: Option<String>)
    ensures
        r.deep_view() == bin_issue(name@, seen.deep_view()),
{
    match seen {
        FileSeen::UnreadableLink => Some(
            "broken bin symlink: bin/".to_owned().concat(name).concat(" (read failed)"),
        ),
        FileSeen::Link { target, exists } => {
            if *exists {
                None
            } else {
                Some(
                    "broken bin symlink: bin/".to_owned().concat(name).concat(" -> ").concat(
                        target.as_str(),
                    ),
                )
            }
        },
        _ => None,
    }
}

fn check_package(e: &InstalledEntry, seen: &PackageSeen, issues: &mut Vec<String>)
    requires
        seen.dir_exists ==> seen.files@.len() == e.files@.len(),
    ensures
        final(issues).deep_view() == old(issues).deep_view() + package_issues(
            e@,
            seen.deep_view(),
        ),
{
    let ghost start = issues.deep_view();
    if !seen.dir_exists {
        let issue = "package dir missing: ".to_owned().concat(e.install_path.as_str());
        let ghost iv = issue@;
        issues.push(issue);
        assert(issues.deep_view() =~= start + seq![iv]);
        return ;
    }
    let ghost files = e@.files;
    let ghost sv = seen.files.deep_view();
    let mut i: usize = 0;
    assert(issues.deep_view() =~= start + file_issues(e@.install_path, files, sv, 0));
    while i < e.files.len()
        invariant
            i <= e.files@.len(),
            seen.files@.len() == e.files@.len(),
            files == e.files.deep_view(),
            sv == seen.files.deep_view(),
            issues.deep_view() == start + file_issues(e@.install_path, files, sv, i as nat),
        decreases e.files@.len() - i,
    {
        let ghost before = issues.deep_view();
        assert(files[i as int] == e.files@[i as int]@);
        assert(sv[i as int] == seen.files@[i as int].deep_view());
        if let Some(issue) = find_file_issue(
            e.install_path.as_str(),
            e.files[i].as_str(),
            &seen.files[i],
        ) {
            let ghost iv = issue@;
            issues.push(issue);
            assert(issues.deep_view() =~= before.push(iv));
        }
        i += 1;
        assert(issues.deep_view() =~= start + file_issues(e@.install_path, files, sv, i as nat));
    }
}

/// Runs broken symlinks check: package files under pkgs and symlinks under bin, given what was seen
/// of each installed package and of each entry of the bin directory.
pub fn run_symlinks_check(
    installed: Option<&InstalledDb>,
    seen: &Vec<PackageSeen>,
    bin: &Vec<(String, FileSeen)>,
) -> (r: (bool, Vec<String>))
    requires
        installed matches Some(db) ==> seen_fits(db@, seen.deep_view()),
    ensures
        (r.0, r.1.deep_view()) == symlinks_check(
            installed.deep_view(),
            seen.deep_view(),
            bin.deep_view(),
        ),
{
    let installed = match installed {
        Some(db) => db,
        None => {
            return no_issue();
        },
    };
    let entries = installed.list_all();
    let ghost all = installed@;
    let ghost sv = seen.deep_view();
    let ghost bv = bin.deep_view();
    let mut issues: Vec<String> = Vec::new();
    let mut i: usize = 0;
    assert(issues.deep_view() =~= Seq::empty());
    while i < entries.len()
        invariant
            i <= entries@.len(),
            all == entries.deep_view(),
            sv == seen.deep_view(),
            seen_fits(all, sv),
            issues.deep_view() == packages_issues(all, sv, i as nat),
        decreases entries@.len() - i,
    {
        assert(all[i as int] == entries@[i as int]@);
        assert(sv[i as int] == seen@[i as int].deep_view());
        check_package(&entries[i], &seen[i], &mut issues);
        i += 1;
    }
    let ghost start = issues.deep_view();
    let mut k: usize = 0;
    assert(issues.deep_view() =~= start + bin_issues(bv.take(0)));
    while k < bin.len()
        invariant
            k <= bin@.len(),
            bv == bin.deep_view(),
            issues.deep_view() == start + bin_issues(bv.take(k as int)),
        decreases bin@.len() - k,
    {
        let ghost before = issues.deep_view();
        assert(bv[k as int] == (bin@[k as int].0@, bin@[k as int].1.deep_view()));
        assert(bv.take(k + 1).drop_last() == bv.take(k as int));
        if let Some(issue) = find_bin_issue(bin[k].0.as_str(), &bin[k].1) {
            let ghost iv = issue@;
            issues.push(issue);
            assert(issues.deep_view() =~= before.push(iv));
        }
        k += 1;
        assert(issues.deep_view() =~= start + bin_issues(bv.take(k as int)));
    }
    assert(bv.take(bv.len() as int) == bv);
    assert(issues.deep_view().len() == issues@.len());
    (issues.len() == 0, issues)
}

/// A check as part of the full result.
pub open spec fn result_of(check: (bool, Seq<Text>)) -> DoctorCheckResultView {
    DoctorCheckResultView { ok: check.0, issues: check.1 }
}

/// Runs all three checks and returns a DoctorResult.
pub fn run_doctor_checks(
    found: &Vec<Found>,
    lockfile: &Result<Option<Lockfile>, LockfileLoadError>,
    installed: &Result<InstalledDb, InstalledLoadError>,
    seen: &Vec<PackageSeen>,
    bin: &Vec<(String, FileSeen)>,
) -> (r: DoctorResult)
    requires
        found@.len() == prefix::layout().len(),
        installed matches Ok(db) ==> seen_fits(db@, seen.deep_view()),
    ensures
        r@ == (DoctorResultView {
            layout: result_of(
                check_of(prefix::layout_issues(found@, prefix::layout().len())),
            ),
            lockfile: result_of(
                lockfile_check(views::result_view(*lockfile), views::result_view(*installed)),
            ),
            symlinks: result_of(
                symlinks_check(
                    match views::result_view(*installed) {
                        Ok(entries) => Some(entries),
                        Err(_) => None,
                    },
                    seen.deep_view(),
                    bin.deep_view(),
                ),
            ),
        }),
{
    let (layout_ok, layout_issues) = run_layout_check(found);
    let (lockfile_ok, lockfile_issues) = run_lockfile_check(lockfile, installed);
    let known: Option<&InstalledDb> = match installed {
        Ok(db) => Some(db),
        Err(_) => None,
    };
    let (symlinks_ok, symlinks_issues) = run_symlinks_check(known, seen, bin);
    DoctorResult {
        layout: DoctorCheckResult { ok: layout_ok, issues: layout_issues },
        lockfile: DoctorCheckResult { ok: lockfile_ok, issues: lockfile_issues },
        symlinks: DoctorCheckResult { ok: symlinks_ok, issues: symlinks_issues },
    }
}

} // verus!
