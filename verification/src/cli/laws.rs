//! What the commands print and decide, stated of the positions of what they work on.

use std::cmp::Ordering;

use vstd::prelude::*;
use vstd::string::*;

use crate::cli::args;
use crate::cli::args::{ColorModeArg, LockfileModeArg, OutputFormatArg};
use crate::cli::diagnosis;
use crate::cli::output;
use crate::cli::plan_output;
use crate::cli::plans;
use crate::cli::plans::{BatchView, Deed, Job, LoadedView, NextStepView, WorkspaceView};
use crate::cli::search;
use crate::cli::status;
use crate::cli::status::LockfileStatus;
use crate::doctor;
use crate::doctor::{DoctorCheckResultView, DoctorResultView, FileSeenView, PackageSeenView};
use crate::failure;
use crate::failure::{FailureKind, OutputFormat, ResolverFailureView};
use crate::lists;
use crate::package_name;
use crate::resolver::available;
use crate::resolver::available::Index;
use crate::resolver::plan::{PlanStepView, RequestView};
use crate::resolver::request;
use crate::resolver::{LockfileMode, PlanAction, UpgradePolicy};
use crate::storage::installed::InstalledEntryView;
use crate::storage::lockfile;
use crate::storage::lockfile::LockfilePackageView;
use crate::table;
use crate::term;
use crate::text;
use crate::text::Text;
use crate::text_laws;
use crate::version;

verus! {

/// Whether `part` stands in `s` from position `i` on.
pub open spec fn stands_at(s: Text, part: Text, i: int) -> bool {
    &&& 0 <= i
    &&& i + part.len() <= s.len()
    &&& forall|j: int| 0 <= j < part.len() ==> #[trigger] part[j] == s[i + j]
}

/// A name matches a pattern exactly if the pattern, in lower case, stands somewhere in the name, in
/// lower case; without a pattern every name matches.
pub proof fn lemma_name_matches(name: Text, pattern: Text)
    ensures
        search::name_matches(name, Some(pattern)) == (exists|i: int| #[trigger]
            stands_at(text::lowered(name), text::lowered(pattern), i)),
        search::name_matches(name, None),
{
    let s = text::lowered(name);
    let p = text::lowered(pattern);
    if text::contains_text(s, p) {
        let i = choose|i: int| text::occurs_at(s, p, i);
        let part = s.subrange(i, i + p.len());
        assert forall|j: int| 0 <= j < p.len() implies #[trigger] p[j] == s[i + j] by {
            assert(part[j] == s[i + j]);
        }
        assert(stands_at(s, p, i));
    }
    if exists|i: int| #[trigger] stands_at(s, p, i) {
        let i = choose|i: int| #[trigger] stands_at(s, p, i);
        assert(s.subrange(i, i + p.len()) =~= p);
        assert(text::occurs_at(s, p, i));
    }
}

/// A search finds exactly the packages of the index whose names match, each with its latest version,
/// which none of its versions is newer than.
pub proof fn lemma_found(t: Index, pattern: Option<Text>, name: Text, v: Text)
    requires
        available::well_indexed(t),
    ensures
        search::found(t, pattern).contains((name, v)) == (search::name_matches(name, pattern)
            && exists|k: int| #[trigger] latest_at(t, name, v, k)),
{
    lemma_found_in(t, pattern, name, v);
    assert forall|k: int| 0 <= k < t.len() && t[k].0 == name && t[k].1.last().version
        == v implies #[trigger] latest_at(t, name, v, k) by {
        let list = t[k].1;
        assert(available::versions_ascend(list));
        assert forall|j: int| 0 <= j < list.len() implies version::version_order(
            v,
            (#[trigger] list[j]).version,
        ) != Ordering::Less by {
            let n = list.len() - 1;
            version::lemma_version_trichotomy(v, list[j].version);
            version::lemma_version_lt_irreflexive(v);
            if j < n {
                assert(version::version_le(list[j].version, list[n].version));
                if version::version_lt(v, list[j].version) && version::version_lt(
                    list[j].version,
                    v,
                ) {
                    version::lemma_version_lt_transitive(v, list[j].version, v);
                }
            }
        }
    }
    if exists|k: int|
        0 <= k < t.len() && (#[trigger] t[k]).0 == name && t[k].1.last().version == v {
        let k = choose|k: int|
            0 <= k < t.len() && (#[trigger] t[k]).0 == name && t[k].1.last().version == v;
        assert(latest_at(t, name, v, k));
    }
    if exists|k: int| #[trigger] latest_at(t, name, v, k) {
        let k = choose|k: int| #[trigger] latest_at(t, name, v, k);
        assert(t[k].0 == name);
    }
}

/// Whether the package at `k` of the index has the name, and the version is its last, which none of
/// its versions is newer than.
pub open spec fn latest_at(t: Index, name: Text, v: Text, k: int) -> bool {
    &&& 0 <= k < t.len()
    &&& t[k].0 == name
    &&& t[k].1.len() > 0
    &&& t[k].1.last().version == v
    &&& forall|j: int|
        0 <= j < t[k].1.len() ==> version::version_order(v, (#[trigger] t[k].1[j]).version)
            != Ordering::Less
}

proof fn lemma_found_in(t: Index, pattern: Option<Text>, name: Text, v: Text)
    ensures
        search::found(t, pattern).contains((name, v)) == (search::name_matches(name, pattern)
            && exists|k: int|
            0 <= k < t.len() && (#[trigger] t[k]).0 == name && t[k].1.last().version == v),
    decreases t.len(),
{
    if t.len() > 0 {
        let d = t.drop_last();
        let n = t.len() - 1;
        lemma_found_in(d, pattern, name, v);
        assert(forall|k: int| 0 <= k < d.len() ==> #[trigger] d[k] == t[k]);
        lists::lemma_push_contains(
            search::found(d, pattern),
            (t[n].0, t[n].1.last().version),
            (name, v),
        );
        if exists|k: int|
            0 <= k < d.len() && (#[trigger] d[k]).0 == name && d[k].1.last().version == v {
            let k = choose|k: int|
                0 <= k < d.len() && (#[trigger] d[k]).0 == name && d[k].1.last().version == v;
            assert(t[k].0 == name);
        }
        if exists|k: int|
            0 <= k < t.len() && (#[trigger] t[k]).0 == name && t[k].1.last().version == v {
            let k = choose|k: int|
                0 <= k < t.len() && (#[trigger] t[k]).0 == name && t[k].1.last().version == v;
            if k < n {
                assert(d[k].0 == name);
            }
        }
    }
}

/// Whether lockfile entry `i` is the first with the name.
pub open spec fn first_locked(packages: Seq<LockfilePackageView>, name: Text, i: int) -> bool {
    &&& 0 <= i < packages.len()
    &&& packages[i].name == name
    &&& forall|j: int| 0 <= j < i ==> (#[trigger] packages[j]).name != name
}

/// Whether no lockfile entry has the name.
pub open spec fn unlocked(packages: Seq<LockfilePackageView>, name: Text) -> bool {
    forall|j: int| 0 <= j < packages.len() ==> (#[trigger] packages[j]).name != name
}

proof fn lemma_first_locked(packages: Seq<LockfilePackageView>, name: Text, i: int)
    ensures
        first_locked(packages, name, i) ==> lockfile::locked_for(packages, name).len() > 0
            && lockfile::locked_for(packages, name)[0] == packages[i],
        unlocked(packages, name) == (lockfile::locked_for(packages, name).len() == 0),
    decreases packages.len(),
{
    reveal(Seq::filter);
    if packages.len() > 0 {
        let d = packages.drop_last();
        let n = packages.len() - 1;
        lemma_first_locked(d, name, i);
        assert(forall|k: int| 0 <= k < d.len() ==> #[trigger] d[k] == packages[k]);
        if first_locked(packages, name, i) {
            if i < n {
                assert forall|j: int| 0 <= j < i implies (#[trigger] d[j]).name != name by {
                    assert(packages[j].name != name);
                }
                assert(first_locked(d, name, i));
            } else {
                assert forall|j: int| 0 <= j < d.len() implies (#[trigger] d[j]).name != name by {
                    assert(packages[j].name != name);
                }
                assert(unlocked(d, name));
            }
        }
        if unlocked(packages, name) {
            assert forall|j: int| 0 <= j < d.len() implies (#[trigger] d[j]).name != name by {
                assert(packages[j].name != name);
            }
            assert(packages[n].name != name);
        }
        if unlocked(d, name) && packages[n].name != name {
            assert forall|j: int| 0 <= j < packages.len() implies (#[trigger] packages[j]).name
                != name by {
                if j < n {
                    assert(d[j].name != name);
                }
            }
        }
    }
}

/// An installed package is held against the first lockfile entry with its name: it matches exactly if
/// their versions are the same text; it is not in the lockfile exactly if there is no such entry.
pub proof fn lemma_lockfile_info(e: InstalledEntryView, packages: Seq<LockfilePackageView>, i: int)
    ensures
        unlocked(packages, e.name) ==> status::lockfile_info(e, packages) == (
            LockfileStatus::NotInLockfile,
            None::<Text>,
        ),
        first_locked(packages, e.name, i) ==> status::lockfile_info(e, packages) == (
            if packages[i].version == e.version {
                LockfileStatus::Match
            } else {
                LockfileStatus::Mismatch
            },
            Some(packages[i].version),
        ),
{
    lemma_first_locked(packages, e.name, i);
}

/// What the doctor says of an installed package and the lockfile: nothing if the first lockfile entry
/// with its name has its version, else that it is not in the lockfile or which versions differ.
pub proof fn lemma_lock_issue(e: InstalledEntryView, packages: Seq<LockfilePackageView>, i: int)
    ensures
        unlocked(packages, e.name) ==> doctor::lock_issue(packages, e) == Some(
            e.name + ": not in lockfile"@,
        ),
        first_locked(packages, e.name, i) && packages[i].version == e.version
            ==> doctor::lock_issue(packages, e) is None,
        first_locked(packages, e.name, i) && packages[i].version != e.version
            ==> doctor::lock_issue(packages, e) == Some(
            e.name + ": version mismatch (installed "@ + e.version + ", locked "@
                + packages[i].version + ")"@,
        ),
{
    lemma_first_locked(packages, e.name, i);
}

/// The issues of installed packages are those of each, in their order.
pub proof fn lemma_lock_issues(
    packages: Seq<LockfilePackageView>,
    a: Seq<InstalledEntryView>,
    b: Seq<InstalledEntryView>,
    e: InstalledEntryView,
)
    ensures
        doctor::lock_issues(packages, Seq::empty()).len() == 0,
        doctor::lock_issues(packages, a + b) == doctor::lock_issues(packages, a)
            + doctor::lock_issues(packages, b),
        doctor::lock_issue(packages, e) matches Some(issue) ==> doctor::lock_issues(
            packages,
            seq![e],
        ) == seq![issue],
        doctor::lock_issue(packages, e) is None ==> doctor::lock_issues(packages, seq![e]).len()
            == 0,
    decreases b.len(),
{
    let one = seq![e];
    assert(one.last() == e);
    assert(one.drop_last() =~= Seq::empty());
    assert(doctor::lock_issues(packages, one.drop_last()) =~= Seq::empty());
    if let Some(issue) = doctor::lock_issue(packages, e) {
        assert(doctor::lock_issues(packages, one) =~= seq![issue]);
    }
    if b.len() == 0 {
        assert(a + b =~= a);
    } else {
        lemma_lock_issues(packages, a, b.drop_last(), e);
        assert((a + b).drop_last() =~= a + b.drop_last());
        assert((a + b).last() == b.last());
    }
    assert(doctor::lock_issues(packages, a + b) =~= doctor::lock_issues(packages, a)
        + doctor::lock_issues(packages, b));
}

/// The check of the lockfile is ok without a lockfile, and with one if there are no issues. What
/// cannot be loaded is not ok, with one issue.
pub proof fn lemma_lockfile_check(
    packages: Seq<LockfilePackageView>,
    entries: Seq<InstalledEntryView>,
    bad_lockfile: lockfile::LockfileLoadErrorView,
    bad_database: crate::storage::installed::InstalledLoadErrorView,
)
    ensures
        doctor::lockfile_check(Ok(None), Ok(entries)).0,
        doctor::lockfile_check(Ok(None), Err(bad_database)).0,
        doctor::lockfile_check(Ok(Some(packages)), Ok(entries)).1 == doctor::lock_issues(
            packages,
            entries,
        ),
        doctor::lockfile_check(Ok(Some(packages)), Ok(entries)).0 == (doctor::lock_issues(
            packages,
            entries,
        ).len() == 0),
        !doctor::lockfile_check(Err(bad_lockfile), Ok(entries)).0,
        doctor::lockfile_check(Err(bad_lockfile), Ok(entries)).1.len() == 1,
        !doctor::lockfile_check(Ok(Some(packages)), Err(bad_database)).0,
        doctor::lockfile_check(Ok(Some(packages)), Err(bad_database)).1.len() == 1,
{
}

/// Whether what was seen of a file is in order: it is there, and leads somewhere if it is a link.
pub open spec fn sound_file(seen: FileSeenView) -> bool {
    match seen {
        FileSeenView::Missing => false,
        FileSeenView::Plain => true,
        FileSeenView::UnreadableLink => false,
        FileSeenView::Link { exists, .. } => exists,
    }
}

/// Whether what was seen of an entry of the bin directory is in order: it is no link that leads
/// nowhere.
pub open spec fn sound_bin(seen: FileSeenView) -> bool {
    match seen {
        FileSeenView::UnreadableLink => false,
        FileSeenView::Link { exists, .. } => exists,
        _ => true,
    }
}

/// Whether what was seen of an installed package is in order: its directory and all its files.
pub open spec fn sound_package(e: InstalledEntryView, seen: PackageSeenView) -> bool {
    seen.dir_exists && forall|j: int| 0 <= j < e.files.len() ==> sound_file(#[trigger] seen.files[j])
}

proof fn lemma_file_issues(path: Text, files: Seq<Text>, seen: Seq<FileSeenView>, n: nat)
    ensures
        (doctor::file_issues(path, files, seen, n).len() == 0) == (forall|j: int|
            0 <= j < n ==> sound_file(#[trigger] seen[j])),
    decreases n,
{
    if n > 0 {
        lemma_file_issues(path, files, seen, (n - 1) as nat);
        let f = seen[n - 1];
        assert(doctor::file_issue(path, files[n - 1], f) is None == sound_file(f));
    }
}

proof fn lemma_packages_issues(
    entries: Seq<InstalledEntryView>,
    seen: Seq<PackageSeenView>,
    n: nat,
)
    ensures
        (doctor::packages_issues(entries, seen, n).len() == 0) == (forall|i: int|
            0 <= i < n ==> sound_package(#[trigger] entries[i], seen[i])),
    decreases n,
{
    if n > 0 {
        lemma_packages_issues(entries, seen, (n - 1) as nat);
        let e = entries[n - 1];
        let s = seen[n - 1];
        lemma_file_issues(e.install_path, e.files, s.files, e.files.len());
        assert((doctor::package_issues(e, s).len() == 0) == sound_package(e, s));
    }
}

proof fn lemma_bin_issues(bin: Seq<(Text, FileSeenView)>)
    ensures
        (doctor::bin_issues(bin).len() == 0) == (forall|i: int|
            0 <= i < bin.len() ==> sound_bin((#[trigger] bin[i]).1)),
    decreases bin.len(),
{
    if bin.len() > 0 {
        let d = bin.drop_last();
        let n = bin.len() - 1;
        lemma_bin_issues(d);
        assert(forall|i: int| 0 <= i < d.len() ==> #[trigger] d[i] == bin[i]);
        assert(doctor::bin_issue(bin[n].0, bin[n].1) is None == sound_bin(bin[n].1));
        if forall|i: int| 0 <= i < d.len() ==> sound_bin((#[trigger] d[i]).1) {
            assert forall|i: int| 0 <= i < n implies sound_bin((#[trigger] bin[i]).1) by {
                assert(sound_bin(d[i].1));
            }
        } else {
            let i = choose|i: int| 0 <= i < d.len() && !sound_bin((#[trigger] d[i]).1);
            assert(!sound_bin(bin[i].1));
        }
    }
}

/// The check of the links is ok exactly if the directories of all installed packages are there, with
/// all their files, and no link among these or in the bin directory leads nowhere. Where the installed
/// packages are not known there is nothing to check.
pub proof fn lemma_symlinks_check(
    entries: Seq<InstalledEntryView>,
    seen: Seq<PackageSeenView>,
    bin: Seq<(Text, FileSeenView)>,
)
    ensures
        doctor::symlinks_check(Some(entries), seen, bin).0 == ((forall|i: int|
            0 <= i < entries.len() ==> sound_package(#[trigger] entries[i], seen[i])) && (forall|
            i: int,
        |
            0 <= i < bin.len() ==> sound_bin((#[trigger] bin[i]).1))),
        doctor::symlinks_check(None, seen, bin).0,
        doctor::symlinks_check(Some(entries), seen, bin).0 == (doctor::symlinks_check(
            Some(entries),
            seen,
            bin,
        ).1.len() == 0),
{
    lemma_packages_issues(entries, seen, entries.len());
    lemma_bin_issues(bin);
}

/// What is said of a file that is missing or of a link that leads nowhere names the file, and the
/// target if it is known.
pub proof fn lemma_file_issue(path: Text, file: Text, target: Text)
    ensures
        doctor::file_issue(path, file, FileSeenView::Missing) == Some(
            "missing: "@ + path + "/"@ + file,
        ),
        doctor::file_issue(path, file, (FileSeenView::Link { target, exists: false })) == Some(
            "broken symlink: "@ + path + "/"@ + file + " -> "@ + target,
        ),
        doctor::file_issue(path, file, FileSeenView::UnreadableLink) == Some(
            "broken symlink: "@ + path + "/"@ + file + " (read failed)"@,
        ),
        doctor::bin_issue(file, (FileSeenView::Link { target, exists: false })) == Some(
            "broken bin symlink: bin/"@ + file + " -> "@ + target,
        ),
        doctor::bin_issue(file, FileSeenView::UnreadableLink) == Some(
            "broken bin symlink: bin/"@ + file + " (read failed)"@,
        ),
{
}

/// The exit codes: 0 for success, 1 where the resolver failed, 2 where a plan could not be executed,
/// and 3 for anything else, such as a doctor that found issues.
pub proof fn lemma_exit_codes(
    result: DoctorResultView,
    emitted: Result<Text, failure::FailureSerializeErrorView>,
    deed: Deed,
    steps: Seq<PlanStepView>,
    e: Text,
    color: bool,
)
    ensures
        diagnosis::doctor_code(result) == 0 || diagnosis::doctor_code(result) == 3,
        (diagnosis::doctor_code(result) == 0) == (result.layout.ok && result.lockfile.ok
            && result.symlinks.ok),
        plans::failure_output(emitted).code == 1,
        plans::failure_output(emitted).stdout.len() == 0,
        emitted matches Ok(s) ==> plans::failure_output(emitted).stderr == s,
        plans::executed_output(deed, steps, Some(e), color, false).code == 2,
        plans::executed_output(deed, steps, Some(e), color, false).stderr == "sic: "@ + e + "\n"@,
        plans::executed_output(deed, steps, None, color, false).code == 0,
        plans::executed_output(deed, steps, None, color, false).stdout == plans::deed_lines(
            deed,
            steps,
            color,
        ),
{
}

/// Color is used as told; in the auto mode exactly on a terminal where it is not refused.
pub proof fn lemma_colors(no_color: bool, terminal: bool)
    ensures
        args::colors(ColorModeArg::Always, no_color, terminal),
        !args::colors(ColorModeArg::Never, no_color, terminal),
        args::colors(ColorModeArg::Auto, no_color, terminal) == (terminal && !no_color),
{
}

/// An argument is one of the words, in any case; anything else is refused.
pub proof fn lemma_arguments(s: Text)
    ensures
        ({
            let word = text::lowered(s);
            &&& (args::parsed_color(s) == Ok::<_, Text>(ColorModeArg::Auto)) == (word == "auto"@)
            &&& (args::parsed_color(s) == Ok::<_, Text>(ColorModeArg::Never)) == (word == "never"@)
            &&& (args::parsed_color(s) == Ok::<_, Text>(ColorModeArg::Always)) == (word
                == "always"@)
            &&& (args::parsed_mode(s) == Ok::<_, Text>(LockfileModeArg::Strict)) == (word
                == "strict"@)
            &&& (args::parsed_mode(s) == Ok::<_, Text>(LockfileModeArg::Flexible)) == (word
                == "flexible"@)
            &&& (args::parsed_format(s) == Ok::<_, Text>(OutputFormatArg::Human)) == (word
                == "human"@)
            &&& (args::parsed_format(s) == Ok::<_, Text>(OutputFormatArg::Json)) == (word
                == "json"@)
            &&& (args::parsed_format(s) == Ok::<_, Text>(OutputFormatArg::Toml)) == (word
                == "toml"@)
        }),
        args::mode_of(LockfileModeArg::Strict) == LockfileMode::Strict,
        args::mode_of(LockfileModeArg::Flexible) == LockfileMode::Flexible(
            UpgradePolicy::AllowUpgrade,
        ),
        args::format_of(OutputFormatArg::Human) == OutputFormat::Human,
        args::format_of(OutputFormatArg::Json) == OutputFormat::Json,
        args::format_of(OutputFormatArg::Toml) == OutputFormat::Toml,
{
    reveal_strlit("auto");
    reveal_strlit("never");
    reveal_strlit("always");
    reveal_strlit("strict");
    reveal_strlit("flexible");
    reveal_strlit("human");
    reveal_strlit("json");
    reveal_strlit("toml");
    assert("auto"@.len() == 4 && "never"@.len() == 5 && "always"@.len() == 6);
    assert("strict"@.len() == 6 && "flexible"@.len() == 8);
    assert("human"@.len() == 5 && "json"@.len() == 4 && "toml"@.len() == 4);
    assert("json"@[0] == 'j' && "toml"@[0] == 't');
}

/// A dry run executes nothing: it shows the plan. Otherwise a plan is executed exactly if it has
/// steps. What cannot be planned fails, and what is no package name is refused, whatever the mode.
pub proof fn lemma_install_step(
    ws: WorkspaceView,
    name: Text,
    dry_run: bool,
    format: OutputFormat,
    use_color: bool,
)
    ensures
        ({
            let next = plans::install_step(ws, name, dry_run, format, use_color);
            let r = plans::plan_in(ws, RequestView::Install { name });
            &&& !package_name::valid_name(name) ==> (next matches NextStepView::Exit(o) && o.code
                == 3 && o.stdout.len() == 0)
            &&& package_name::valid_name(name) ==> {
                &&& r matches Err(f) ==> next == NextStepView::Fail(f)
                &&& r matches Ok(plan) ==> {
                    &&& next is Execute == (!dry_run && plan.steps.len() > 0)
                    &&& next matches NextStepView::Execute { plan: p, .. } ==> p == plan
                    &&& dry_run ==> (next matches NextStepView::Show { stdout, .. } && stdout
                        == plan_output::plan_text(plan, format))
                }
            }
        }),
{
}

/// The same of upgrades: of the one package that is named, or of all.
pub proof fn lemma_upgrade_step(
    ws: WorkspaceView,
    name: Option<Text>,
    dry_run: bool,
    format: OutputFormat,
    use_color: bool,
)
    ensures
        ({
            let next = plans::upgrade_step(ws, name, dry_run, format, use_color);
            let r = match name {
                Some(n) => plans::plan_in(ws, RequestView::Upgrade { name: n }),
                None => plans::plan_in(ws, RequestView::UpgradeAll),
            };
            let named = name matches Some(n) ==> package_name::valid_name(n);
            &&& !named ==> (next matches NextStepView::Exit(o) && o.code == 3)
            &&& named ==> {
                &&& r matches Err(f) ==> next == NextStepView::Fail(f)
                &&& r matches Ok(plan) ==> {
                    &&& next is Execute == (!dry_run && plan.steps.len() > 0)
                    &&& next matches NextStepView::Execute { plan: p, .. } ==> p == plan
                    &&& dry_run ==> (next matches NextStepView::Show { stdout, .. } && stdout
                        == plan_output::plan_text(plan, format))
                    &&& !dry_run && plan.steps.len() == 0 ==> (next matches NextStepView::Show {
                        stdout,
                        ..
                    } && stdout == "Nothing to upgrade.\n"@)
                }
            }
        }),
{
}

/// The same of removals, which give no warnings.
pub proof fn lemma_remove_step(
    ws: WorkspaceView,
    name: Text,
    force: bool,
    dry_run: bool,
    format: OutputFormat,
    use_color: bool,
)
    ensures
        ({
            let next = plans::remove_step(ws, name, force, dry_run, format, use_color);
            let r = plans::plan_in(ws, RequestView::Remove { name, force });
            &&& !package_name::valid_name(name) ==> (next matches NextStepView::Exit(o) && o.code
                == 3)
            &&& package_name::valid_name(name) ==> {
                &&& r matches Err(f) ==> next == NextStepView::Fail(f)
                &&& r matches Ok(plan) ==> {
                    &&& next is Execute == !dry_run
                    &&& next matches NextStepView::Execute { plan: p, stderr } ==> p == plan
                        && stderr.len() == 0
                    &&& dry_run ==> (next matches NextStepView::Show { stdout, .. } && stdout
                        == plan_output::plan_text(plan, format))
                }
            }
        }),
{
}

/// Resolving only never executes: it prints the plan and succeeds, or fails as the resolver did.
pub proof fn lemma_resolve_only_step(
    ws: WorkspaceView,
    name: Option<Text>,
    format: OutputFormat,
    use_color: bool,
)
    ensures
        ({
            let next = plans::resolve_only_step(ws, name, format, use_color);
            let r = match name {
                Some(n) => plans::plan_in(ws, RequestView::Install { name: n }),
                None => plans::plan_in(ws, RequestView::UpgradeAll),
            };
            &&& !(next is Execute)
            &&& (name matches Some(n) ==> package_name::valid_name(n)) ==> {
                &&& r matches Err(f) ==> next == NextStepView::Fail(f)
                &&& r matches Ok(plan) ==> (next matches NextStepView::Exit(o) && o.stdout
                    == plan_output::plan_text(plan, format) && o.code == 0)
            }
        }),
{
}

/// A plan is made of what the workspace has, with the lockfile in its mode, if there is one, and with
/// the packages of the system.
pub proof fn lemma_plan_in(ws: WorkspaceView, r: RequestView)
    ensures
        ws.lockfile matches Some(packages) ==> plans::plan_in(ws, r) == request::plan_for_request(
            r,
            ws.available,
            ws.installed,
            Some((packages, ws.mode)),
            Some(ws.system),
        ),
        ws.lockfile is None ==> plans::plan_in(ws, r) == request::plan_for_request(
            r,
            ws.available,
            ws.installed,
            None,
            Some(ws.system),
        ),
{
}

/// A workspace is what was loaded: it fails exactly if something could not be, or if there are no
/// packages where there have to be some.
pub proof fn lemma_workspace(loaded: LoadedView, mode: LockfileModeArg, allow_no_packages: bool)
    ensures
        plans::workspace_of(loaded, mode, allow_no_packages) is Ok == (loaded.packages is Ok
            && loaded.installed is Ok && loaded.lockfile is Ok && (allow_no_packages
            || loaded.packages->Ok_0.len() > 0)),
        plans::workspace_of(loaded, mode, allow_no_packages) matches Ok(ws) ==> {
            &&& ws.available == available::indexed(loaded.packages->Ok_0)
            &&& ws.installed == loaded.installed->Ok_0
            &&& ws.lockfile == loaded.lockfile->Ok_0
            &&& ws.system == loaded.system
            &&& mode == LockfileModeArg::Strict ==> ws.mode == LockfileMode::Strict
            &&& mode == LockfileModeArg::Flexible ==> ws.mode == LockfileMode::Flexible(
                UpgradePolicy::AllowUpgrade,
            )
        },
{
}

/// A batch takes its names in turn, each once, and is done after the last. After a plan was executed
/// it goes on with the packages that are then installed, and nothing else of it changes.
pub proof fn lemma_batch(
    b: BatchView,
    dry_run: bool,
    format: OutputFormat,
    use_color: bool,
    entries: Seq<InstalledEntryView>,
)
    ensures
        b.done >= b.names.len() ==> (plans::batch_step(b, dry_run, format, use_color) matches
            NextStepView::Exit(o) && o.code == 0 && o.stdout.len() == 0),
        b.done < b.names.len() && b.job == Job::Install ==> plans::batch_step(
            b,
            dry_run,
            format,
            use_color,
        ) == plans::install_step(b.ws, b.names[b.done as int], dry_run, format, use_color),
        b.done < b.names.len() && b.job == (Job::Remove { force: true }) ==> plans::batch_step(
            b,
            dry_run,
            format,
            use_color,
        ) == plans::remove_step(b.ws, b.names[b.done as int], true, dry_run, format, use_color),
        b.done < b.names.len() && b.job == (Job::Remove { force: false }) ==> plans::batch_step(
            b,
            dry_run,
            format,
            use_color,
        ) == plans::remove_step(b.ws, b.names[b.done as int], false, dry_run, format, use_color),
        plans::batch_after(b, None) == (BatchView { done: b.done + 1, ..b }),
        ({
            let next = plans::batch_after(b, Some(Ok(entries)));
            &&& next.ws.installed == entries
            &&& next.ws.available == b.ws.available
            &&& next.ws.lockfile == b.ws.lockfile
            &&& next.ws.mode == b.ws.mode
            &&& next.ws.system == b.ws.system
            &&& next.job == b.job
            &&& next.names == b.names
            &&& next.done == b.done + 1
        }),
{
}

/// There is a warning for each step, but for removals, whose name is that of a system package, in the
/// order of the steps.
pub proof fn lemma_warnings(
    a: Seq<PlanStepView>,
    b: Seq<PlanStepView>,
    step: PlanStepView,
    system: Seq<(Text, Text)>,
)
    ensures
        plan_output::shadowing_warnings(Seq::empty(), system).len() == 0,
        plan_output::shadowing_warnings(a + b, system) == plan_output::shadowing_warnings(a, system)
            + plan_output::shadowing_warnings(b, system),
        step.action == PlanAction::Remove || table::get(system, step.name) is None
            ==> plan_output::shadowing_warnings(seq![step], system).len() == 0,
        step.action != PlanAction::Remove && table::get(system, step.name) is Some
            ==> plan_output::shadowing_warnings(seq![step], system)
            == "sic: warning: sic package "@ + step.name + " shadows system package "@ + step.name
            + "; may affect ABI\n"@,
    decreases b.len(),
{
    let one = seq![step];
    assert(one.last() == step);
    assert(one.drop_last() =~= Seq::empty());
    let none = plan_output::shadowing_warnings(one.drop_last(), system);
    assert(none =~= Seq::empty());
    assert(none + "sic: warning: sic package "@ =~= "sic: warning: sic package "@);
    if b.len() == 0 {
        assert(a + b =~= a);
    } else {
        lemma_warnings(a, b.drop_last(), step, system);
        assert((a + b).drop_last() =~= a + b.drop_last());
        assert((a + b).last() == b.last());
    }
    assert(plan_output::shadowing_warnings(a + b, system) =~= plan_output::shadowing_warnings(
        a,
        system,
    ) + plan_output::shadowing_warnings(b, system));
}

/// A plan is printed step by step, a line for each with the package, the version and what is done.
pub proof fn lemma_step_lines(a: Seq<PlanStepView>, b: Seq<PlanStepView>, step: PlanStepView)
    ensures
        plan_output::step_lines(Seq::empty()).len() == 0,
        plan_output::step_lines(a + b) == plan_output::step_lines(a) + plan_output::step_lines(b),
        plan_output::step_lines(seq![step]) == "  "@ + step.name + " "@ + step.version + " ("@
            + plan_output::action_text(step.action) + ")\n"@,
        plan_output::action_text(PlanAction::Install) == "Install"@,
        plan_output::action_text(PlanAction::Upgrade) == "Upgrade"@,
        plan_output::action_text(PlanAction::Remove) == "Remove"@,
    decreases b.len(),
{
    let one = seq![step];
    assert(one.last() == step);
    assert(one.drop_last() =~= Seq::empty());
    let none = plan_output::step_lines(one.drop_last());
    assert(none =~= Seq::empty());
    assert(none + "  "@ =~= "  "@);
    if b.len() == 0 {
        assert(a + b =~= a);
    } else {
        lemma_step_lines(a, b.drop_last(), step);
        assert((a + b).drop_last() =~= a + b.drop_last());
        assert((a + b).last() == b.last());
    }
    assert(plan_output::step_lines(a + b) =~= plan_output::step_lines(a) + plan_output::step_lines(
        b,
    ));
}

/// Found packages are printed a line each, with the name and the version.
pub proof fn lemma_package_lines(a: Seq<(Text, Text)>, b: Seq<(Text, Text)>, p: (Text, Text))
    ensures
        search::package_lines(Seq::empty()).len() == 0,
        search::package_lines(a + b) == search::package_lines(a) + search::package_lines(b),
        search::package_lines(seq![p]) == p.0 + "\t"@ + p.1 + "\n"@,
    decreases b.len(),
{
    let one = seq![p];
    assert(one.last() == p);
    assert(one.drop_last() =~= Seq::empty());
    let none = search::package_lines(one.drop_last());
    assert(none =~= Seq::empty());
    assert(none + p.0 =~= p.0);
    if b.len() == 0 {
        assert(a + b =~= a);
    } else {
        lemma_package_lines(a, b.drop_last(), p);
        assert((a + b).drop_last() =~= a + b.drop_last());
        assert((a + b).last() == b.last());
    }
    assert(search::package_lines(a + b) =~= search::package_lines(a) + search::package_lines(b));
}

/// Installed packages are printed a line each: the name and the version and, where there is a
/// lockfile, how the package stands to it.
pub proof fn lemma_status_lines(
    a: Seq<InstalledEntryView>,
    b: Seq<InstalledEntryView>,
    packages: Option<Seq<LockfilePackageView>>,
    e: InstalledEntryView,
    i: int,
)
    ensures
        status::status_lines(Seq::empty(), packages).len() == 0,
        status::status_lines(a + b, packages) == status::status_lines(a, packages)
            + status::status_lines(b, packages),
        packages is None ==> status::status_lines(seq![e], packages) == e.name + "\t"@ + e.version
            + "\n"@,
        packages matches Some(list) ==> (unlocked(list, e.name) ==> status::status_lines(
            seq![e],
            packages,
        ) == e.name + "\t"@ + e.version + "\t(not in lockfile)"@ + "\n"@),
        packages matches Some(list) ==> (first_locked(list, e.name, i) && list[i].version
            == e.version ==> status::status_lines(seq![e], packages) == e.name + "\t"@ + e.version
            + ("\t(locked "@ + e.version + ")"@) + "\n"@),
        packages matches Some(list) ==> (first_locked(list, e.name, i) && list[i].version
            != e.version ==> status::status_lines(seq![e], packages) == e.name + "\t"@ + e.version
            + ("\tlocked "@ + list[i].version + ", installed "@ + e.version) + "\n"@),
    decreases b.len(),
{
    let one = seq![e];
    assert(one.last() == e);
    assert(one.drop_last() =~= Seq::empty());
    let none = status::status_lines(one.drop_last(), packages);
    assert(none =~= Seq::empty());
    assert(none + status::status_line(e, packages) =~= status::status_line(e, packages));
    if let Some(list) = packages {
        lemma_lockfile_info(e, list, i);
    } else {
        assert(e.name + "\t"@ + e.version + Seq::<char>::empty() =~= e.name + "\t"@ + e.version);
    }
    if b.len() == 0 {
        assert(a + b =~= a);
    } else {
        lemma_status_lines(a, b.drop_last(), packages, e, i);
        assert((a + b).drop_last() =~= a + b.drop_last());
        assert((a + b).last() == b.last());
    }
    assert(status::status_lines(a + b, packages) =~= status::status_lines(a, packages)
        + status::status_lines(b, packages));
}

/// The row of an installed package has its path, name, revision and version and, where there is a
/// lockfile, how the package stands to it, with the locked version if there is one.
pub proof fn lemma_status_row(
    e: InstalledEntryView,
    packages: Option<Seq<LockfilePackageView>>,
)
    ensures
        ({
            let row = status::status_row(e, packages);
            let n = row.len() as int;
            &&& row[0] == ("install_path"@, crate::documents::ScalarView::Text(e.install_path))
            &&& row[n - 3] == ("name"@, crate::documents::ScalarView::Text(e.name))
            &&& row[n - 2] == ("revision"@, crate::documents::ScalarView::Number(e.revision))
            &&& row[n - 1] == ("version"@, crate::documents::ScalarView::Text(e.version))
            &&& packages is None ==> n == 4
            &&& packages matches Some(list) ==> {
                let (s, locked) = status::lockfile_info(e, list);
                &&& row[n - 4] == (
                    "lockfile_status"@,
                    crate::documents::ScalarView::Text(
                        match s {
                            LockfileStatus::Match => "match"@,
                            LockfileStatus::Mismatch => "mismatch"@,
                            LockfileStatus::NotInLockfile => "not_in_lockfile"@,
                        },
                    ),
                )
                &&& locked is None ==> n == 5
                &&& locked matches Some(v) ==> n == 6 && row[1] == (
                    "locked_version"@,
                    crate::documents::ScalarView::Text(v),
                )
            }
        }),
{
}

/// What was done is told step by step: of an installation every step that is no removal, of an upgrade
/// those that upgrade, of a removal those that remove.
pub proof fn lemma_deed_lines(
    deed: Deed,
    a: Seq<PlanStepView>,
    b: Seq<PlanStepView>,
    step: PlanStepView,
)
    ensures
        plans::deed_lines(deed, Seq::empty(), false).len() == 0,
        plans::deed_lines(deed, a + b, false) == plans::deed_lines(deed, a, false)
            + plans::deed_lines(deed, b, false),
        step.action != PlanAction::Remove ==> plans::deed_lines(Deed::Installed, seq![step], false)
            == "Installed "@ + step.name + " "@ + step.version + "\n"@,
        step.action == PlanAction::Remove ==> plans::deed_lines(Deed::Installed, seq![step], false)
            == Seq::<char>::empty(),
        step.action == PlanAction::Upgrade ==> plans::deed_lines(Deed::Upgraded, seq![step], false)
            == "Upgraded "@ + step.name + " to "@ + step.version + "\n"@,
        step.action != PlanAction::Upgrade ==> plans::deed_lines(Deed::Upgraded, seq![step], false)
            == Seq::<char>::empty(),
        step.action == PlanAction::Remove ==> plans::deed_lines(Deed::Removed, seq![step], false)
            == "Removed "@ + step.name + " "@ + step.version + "\n"@,
        step.action != PlanAction::Remove ==> plans::deed_lines(Deed::Removed, seq![step], false)
            == Seq::<char>::empty(),
    decreases b.len(),
{
    let one = seq![step];
    assert(one.last() == step);
    assert(one.drop_last() =~= Seq::empty());
    lemma_one_deed(Deed::Installed, step);
    lemma_one_deed(Deed::Upgraded, step);
    lemma_one_deed(Deed::Removed, step);
    if b.len() == 0 {
        assert(a + b =~= a);
    } else {
        lemma_deed_lines(deed, a, b.drop_last(), step);
        assert((a + b).drop_last() =~= a + b.drop_last());
        assert((a + b).last() == b.last());
    }
    assert(plans::deed_lines(deed, a + b, false) =~= plans::deed_lines(deed, a, false)
        + plans::deed_lines(deed, b, false));
}

proof fn lemma_one_deed(deed: Deed, step: PlanStepView)
    ensures
        plans::deed_lines(deed, seq![step], false) == if plans::told(deed, step.action) {
            plans::deed_text(deed, step) + "\n"@
        } else {
            Seq::empty()
        },
{
    let one = seq![step];
    assert(one.last() == step);
    assert(one.drop_last() =~= Seq::empty());
    let none = plans::deed_lines(deed, one.drop_last(), false);
    assert(none =~= Seq::empty());
    let line = output::success_line(plans::deed_text(deed, step), false);
    assert(none + line =~= line);
}

/// The output of a command is its code, with the message on the error stream where it fails and
/// nothing there where it succeeds.
pub proof fn lemma_outputs(s: Text, code: i32)
    ensures
        output::succeeded(s).code == 0,
        output::succeeded(s).stdout == s,
        output::succeeded(s).stderr.len() == 0,
        output::failed(s, false, code).code == code,
        output::failed(s, false, code).stdout.len() == 0,
        output::failed(s, false, code).stderr == s + "\n"@,
        output::failed(s, true, code).stderr == term::colored(s, "31"@) + "\n"@,
        output::printed(Ok(s), false, code).stdout == s + "\n"@,
        output::printed(Ok(s), false, code).code == code,
        output::printed(Err(s), false, code).stdout.len() == 0,
        output::printed(Err(s), false, code).code == 3,
{
}

/// The action that is suggested is the one given, unless that is blank; the default is that of the
/// kind, and no two kinds have the same. A reported failure is the failure with the action spelled
/// out: reporting it again changes nothing.
pub proof fn lemma_suggested_action(f: ResolverFailureView, s: Text)
    ensures
        f.suggested_action == Some(s) && (exists|k: int|
            0 <= k < s.len() && !text::is_space(#[trigger] s[k])) ==> failure::action_of(f) == s,
        f.suggested_action is None ==> failure::action_of(f) == failure::default_action(f.kind),
        f.suggested_action == Some(s) && (forall|k: int|
            0 <= k < s.len() ==> text::is_space(#[trigger] s[k])) ==> failure::action_of(f)
            == failure::default_action(f.kind),
        failure::as_reported(f).kind == f.kind,
        failure::as_reported(f).package == f.package,
        failure::as_reported(f).version_constraint == f.version_constraint,
        failure::as_reported(f).available_versions == f.available_versions,
        failure::as_reported(f).dependencies == f.dependencies,
        failure::as_reported(f).conflicting_packages == f.conflicting_packages,
        failure::as_reported(f).suggested_action == Some(failure::action_of(f)),
{
    text_laws::lemma_blank(s);
}

/// The texts of a failure hold what it knows: the kind first, and the suggested action last.
pub proof fn lemma_failure_text(f: ResolverFailureView)
    ensures
        failure::kind_text(f.kind).is_prefix_of(failure::summary_text(f)),
        failure::summary_text(f).is_prefix_of(failure::human_text(f)),
        ("Suggested: "@ + failure::action_of(f) + "\n\n"@).is_suffix_of(failure::human_text(f)),
        f.package is None ==> failure::summary_text(f) == failure::kind_text(f.kind),
        f.package matches Some(p) ==> (failure::kind_text(f.kind) + ": "@ + p).is_prefix_of(
            failure::summary_text(f),
        ),
{
    reveal_strlit("\n");
    reveal_strlit("\n\n");
    let head = failure::kind_text(f.kind);
    let summary = failure::summary_text(f);
    let whole = failure::human_text(f);
    assert(head =~= summary.subrange(0, head.len() as int));
    assert(summary =~= whole.subrange(0, summary.len() as int));
    let tail = "Suggested: "@ + failure::action_of(f) + "\n\n"@;
    assert(tail =~= failure::suggestion_text(f) + "\n"@);
    assert(tail =~= whole.subrange(whole.len() - tail.len(), whole.len() as int));
    if let Some(p) = f.package {
        let start = head + ": "@ + p;
        assert(start =~= summary.subrange(0, start.len() as int));
    }
}

/// The lines of a check: that it is ok, or how many issues there are and each of them.
pub proof fn lemma_check_lines(title: Text, issues: Seq<Text>, a: Seq<Text>, b: Seq<Text>, s: Text)
    ensures
        diagnosis::check_lines(title, (DoctorCheckResultView { ok: true, issues })) == title
            + ": OK\n"@,
        diagnosis::check_lines(title, (DoctorCheckResultView { ok: false, issues })) == title
            + ": "@ + text::decimal(issues.len()) + " issue(s):\n"@ + diagnosis::issue_lines(
            issues,
        ),
        diagnosis::issue_lines(Seq::empty()).len() == 0,
        diagnosis::issue_lines(a + b) == diagnosis::issue_lines(a) + diagnosis::issue_lines(b),
        diagnosis::issue_lines(seq![s]) == "  "@ + s + "\n"@,
    decreases b.len(),
{
    let one = seq![s];
    assert(one.last() == s);
    assert(one.drop_last() =~= Seq::empty());
    let none = diagnosis::issue_lines(one.drop_last());
    assert(none =~= Seq::empty());
    assert(none + "  "@ =~= "  "@);
    if b.len() == 0 {
        assert(a + b =~= a);
    } else {
        lemma_check_lines(title, issues, a, b.drop_last(), s);
        assert((a + b).drop_last() =~= a + b.drop_last());
        assert((a + b).last() == b.last());
    }
    assert(diagnosis::issue_lines(a + b) =~= diagnosis::issue_lines(a) + diagnosis::issue_lines(b));
}

/// No two kinds of failure read the same, for people or in documents, or suggest the same.
pub proof fn lemma_kinds_differ(a: FailureKind, b: FailureKind)
    requires
        a != b,
    ensures
        failure::kind_text(a) != failure::kind_text(b),
        failure::type_text(a) != failure::type_text(b),
        failure::default_action(a) != failure::default_action(b),
{
    reveal_strlit("Unsatisfiable");
    reveal_strlit("Conflict");
    reveal_strlit("Platform mismatch");
    reveal_strlit("Cycle");
    reveal_strlit("Not in lockfile");
    reveal_strlit("Has dependents");
    reveal_strlit("Other");
    reveal_strlit("unsatisfiable");
    reveal_strlit("conflict");
    reveal_strlit("platform_mismatch");
    reveal_strlit("cycle");
    reveal_strlit("not_in_lockfile");
    reveal_strlit("has_dependents");
    reveal_strlit("other");
    reveal_strlit("downgrade request or wait for newer release");
    reveal_strlit("remove or change one of the conflicting packages");
    reveal_strlit("package not available for this platform");
    reveal_strlit("circular dependency; remove or relax one dependency");
    reveal_strlit("add package to lockfile or run without strict mode");
    reveal_strlit("remove dependents first or use --force");
    reveal_strlit("check input and try again");
    assert(failure::kind_text(a).len() != failure::kind_text(b).len() || failure::kind_text(a)[0]
        != failure::kind_text(b)[0]);
    assert(failure::type_text(a).len() != failure::type_text(b).len() || failure::type_text(a)[0]
        != failure::type_text(b)[0]);
    assert(failure::default_action(a).len() != failure::default_action(b).len()
        || failure::default_action(a)[0] != failure::default_action(b)[0]);
}

/// The prefix is the one given, as it is, or else the root.
pub proof fn lemma_prefix(path: Text, root: Option<Text>, has_home: bool, has_current_dir: bool)
    ensures
        args::prefix_of(Some(path), root, has_home, has_current_dir) == (
            crate::prefix::RootBase::Itself,
            path,
        ),
        args::prefix_of(None, root, has_home, has_current_dir) == crate::prefix::root_of(
            root,
            has_home,
            has_current_dir,
        ),
{
}

/// What a failure knows stands in its text: the constraint and the versions in the summary, the
/// dependencies and the conflicts each in a line of their own.
pub proof fn lemma_failure_details(f: ResolverFailureView, p: Text, c: Text, list: Seq<Text>)
    ensures
        f.package == Some(p) && f.version_constraint is None && f.available_versions is None
            ==> failure::summary_text(f) == failure::kind_text(f.kind) + ": "@ + p,
        f.package == Some(p) && f.version_constraint == Some(c) && f.available_versions is None
            ==> failure::summary_text(f) == failure::kind_text(f.kind) + ": "@ + p + " requires "@
            + c,
        f.package == Some(p) && f.version_constraint == Some(c) && f.available_versions == Some(
            list,
        ) && list.len() > 0 ==> failure::summary_text(f) == failure::kind_text(f.kind) + ": "@ + p
            + " requires "@ + c + "; available: "@ + text::joined(list, ", "@),
        f.dependencies == Some(list) && list.len() > 0 && f.conflicting_packages is None
            ==> failure::human_text(f) == failure::summary_text(f) + "\n"@ + "dependencies: "@
            + text::joined(list, ", "@) + "\n\n"@ + "Suggested: "@ + failure::action_of(f)
            + "\n\n"@,
        f.conflicting_packages == Some(list) && list.len() > 0 && f.dependencies is None
            ==> failure::human_text(f) == failure::summary_text(f) + "\n"@
            + "conflicting packages: "@ + text::joined(list, ", "@) + "\n\n"@ + "Suggested: "@
            + failure::action_of(f) + "\n\n"@,
        f.conflicting_packages is None && f.dependencies is None ==> failure::human_text(f)
            == failure::summary_text(f) + "\n"@ + "Suggested: "@ + failure::action_of(f)
            + "\n\n"@,
{
    reveal_strlit("\n");
    reveal_strlit("\n\n");
    reveal_strlit("dependencies: ");
    reveal_strlit("conflicting packages: ");
    assert("\n"@ + "\n"@ =~= "\n\n"@);
    let none = Seq::<char>::empty();
    let joined = text::joined(list, ", "@);
    assert(failure::summary_text(f) + none =~= failure::summary_text(f));
    if f.package == Some(p) {
        let head = failure::kind_text(f.kind) + ": "@ + p;
        assert(head + none =~= head);
        assert(head + none + none =~= head);
        assert(head + (" requires "@ + c) + none =~= head + " requires "@ + c);
        assert(head + (" requires "@ + c) + ("; available: "@ + joined) =~= head + " requires "@ + c
            + "; available: "@ + joined);
    }
    let tail = "Suggested: "@ + failure::action_of(f);
    if f.dependencies == Some(list) && list.len() > 0 && f.conflicting_packages is None {
        assert(failure::detail_text(f) =~= "dependencies: "@ + joined + "\n"@);
        assert(failure::human_text(f) =~= failure::summary_text(f) + "\n"@ + "dependencies: "@
            + joined + "\n\n"@ + "Suggested: "@ + failure::action_of(f) + "\n\n"@);
    }
    if f.conflicting_packages == Some(list) && list.len() > 0 && f.dependencies is None {
        assert(failure::detail_text(f) =~= "conflicting packages: "@ + joined + "\n"@);
        assert(failure::human_text(f) =~= failure::summary_text(f) + "\n"@
            + "conflicting packages: "@ + joined + "\n\n"@ + "Suggested: "@ + failure::action_of(f)
            + "\n\n"@);
    }
    if f.conflicting_packages is None && f.dependencies is None {
        assert(failure::detail_text(f) =~= none);
        assert(failure::human_text(f) =~= failure::summary_text(f) + "\n"@ + "Suggested: "@
            + failure::action_of(f) + "\n\n"@);
    }
}

/// A failure is reported in words, in color if asked for, or as a document with the suggested action
/// spelled out; a document that cannot be written is an error of its format.
pub proof fn lemma_emitted(f: ResolverFailureView, use_color: bool)
    ensures
        failure::emitted(f, OutputFormat::Human, false) == Ok::<
            _,
            failure::FailureSerializeErrorView,
        >(failure::human_text(f)),
        failure::emitted(f, OutputFormat::Human, true) == Ok::<
            _,
            failure::FailureSerializeErrorView,
        >(failure::colored_text(f)),
        ({
            let document = failure::failure_tree(
                (ResolverFailureView { suggested_action: Some(failure::action_of(f)), ..f }),
            );
            let section = crate::documents::Tree::Table(seq![("failure"@, document)]);
            &&& crate::documents::json_text(document) matches Ok(s) ==> failure::emitted(
                f,
                OutputFormat::Json,
                use_color,
            ) == Ok::<_, failure::FailureSerializeErrorView>(s)
            &&& crate::documents::json_text(document) matches Err(e) ==> failure::emitted(
                f,
                OutputFormat::Json,
                use_color,
            ) == Err::<Text, _>(failure::FailureSerializeErrorView::Json(e))
            &&& crate::documents::toml_text(section) matches Ok(s) ==> failure::emitted(
                f,
                OutputFormat::Toml,
                use_color,
            ) == Ok::<_, failure::FailureSerializeErrorView>(s)
            &&& crate::documents::toml_text(section) matches Err(e) ==> failure::emitted(
                f,
                OutputFormat::Toml,
                use_color,
            ) == Err::<Text, _>(failure::FailureSerializeErrorView::Toml(e))
        }),
{
}

/// In color, the summary is red and the suggested action yellow, and the rest is as without color.
pub proof fn lemma_colored_failure(f: ResolverFailureView)
    ensures
        f.conflicting_packages is None && f.dependencies is None ==> failure::colored_text(f)
            == term::colored(failure::summary_text(f), "31"@) + "\n"@ + term::colored(
            "Suggested: "@ + failure::action_of(f) + "\n"@,
            "33"@,
        ),
        term::colored(failure::summary_text(f), "31"@).is_prefix_of(failure::colored_text(f)),
{
    let summary = term::colored(failure::summary_text(f), "31"@);
    let whole = failure::colored_text(f);
    assert(summary =~= whole.subrange(0, summary.len() as int));
    if f.conflicting_packages is None && f.dependencies is None {
        assert(failure::detail_text(f) =~= Seq::empty());
    }
}

/// The fields of a failure in a document are those that are set, each under its key: the kind always,
/// and nothing that is not set.
pub proof fn lemma_failure_fields(f: ResolverFailureView)
    ensures
        ({
            let fields = failure::failure_fields(f);
            let n = fields.len();
            let count = |set: bool| if set {
                1nat
            } else {
                0nat
            };
            &&& fields[0] == ("type"@, crate::documents::EntryView::Text(failure::type_text(f.kind)))
            &&& n == 1 + count(f.package is Some) + count(f.version_constraint is Some) + count(
                f.available_versions is Some,
            ) + count(f.dependencies is Some) + count(f.conflicting_packages is Some) + count(
                f.suggested_action is Some,
            )
            &&& f.package matches Some(p) ==> fields[1] == (
                "package"@,
                crate::documents::EntryView::Text(p),
            )
            &&& f.suggested_action matches Some(s) ==> fields.last() == (
                "suggested_action"@,
                crate::documents::EntryView::Text(s),
            )
            &&& f.suggested_action is None ==> (f.conflicting_packages matches Some(list)
                ==> fields.last() == (
                "conflicting_packages"@,
                crate::documents::EntryView::Texts(list),
            ))
            &&& f.suggested_action is None && f.conflicting_packages is None ==> (f.dependencies
                matches Some(list) ==> fields.last() == (
                "dependencies"@,
                crate::documents::EntryView::Texts(list),
            ))
            &&& f.suggested_action is None && f.conflicting_packages is None && f.dependencies
                is None ==> (f.available_versions matches Some(list) ==> fields.last() == (
                "available_versions"@,
                crate::documents::EntryView::Texts(list),
            ))
            &&& f.package is Some ==> (f.version_constraint matches Some(c) ==> fields[2] == (
                "version_constraint"@,
                crate::documents::EntryView::Text(c),
            ))
        }),
{
}

} // verus!
