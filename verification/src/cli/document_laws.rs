//! What stands in the documents that the commands print.

use vstd::prelude::*;
use vstd::string::*;

use crate::cli::args::OutputFormatArg;
use crate::cli::diagnosis;
use crate::cli::plan_output;
use crate::cli::search;
use crate::cli::status;
use crate::doctor::{DoctorCheckResultView, DoctorResultView};
use crate::documents;
use crate::documents::{RowView, ScalarView, Tree};
use crate::failure::OutputFormat;
use crate::manifest::ManifestView;
use crate::resolver::available;
use crate::resolver::plan::PlanView;
use crate::resolver::PlanAction;
use crate::storage::installed::{InstalledEntryView, InstalledLoadErrorView};
use crate::storage::lockfile::{LockfileLoadErrorView, LockfilePackageView};
use crate::text::Text;

verus! {

/// Whether no two fields have the same key.
pub open spec fn keys_differ(row: RowView) -> bool {
    forall|i: int, j: int|
        #![trigger row[i], row[j]]
        0 <= i < j < row.len() ==> row[i].0 != row[j].0
}

/// A row with different keys is written field by field, in order: texts as texts and numbers as
/// numbers.
pub proof fn lemma_row(row: RowView)
    requires
        keys_differ(row),
    ensures
        documents::row_entries(row).len() == row.len(),
        forall|i: int|
            0 <= i < row.len() ==> (#[trigger] documents::row_entries(row)[i]).0 == row[i].0
                && documents::row_entries(row)[i].1 == match row[i].1 {
                ScalarView::Text(s) => Tree::Text(s),
                ScalarView::Number(n) => Tree::Number(n as int),
            },
        documents::row_entries(row) == row.map_values(
            |f: (Text, ScalarView)| (f.0, documents::scalar_tree(f.1)),
        ),
    decreases row.len(),
{
    let all = row.map_values(|f: (Text, ScalarView)| (f.0, documents::scalar_tree(f.1)));
    if row.len() == 0 {
        assert(documents::row_entries(row) =~= all);
    } else {
        let d = row.drop_last();
        let n = row.len() - 1;
        assert forall|i: int, j: int|
            #![trigger d[i], d[j]]
            0 <= i < j < d.len() implies d[i].0 != d[j].0 by {
            assert(d[i] == row[i] && d[j] == row[j]);
        }
        lemma_row(d);
        let front = documents::row_entries(d);
        assert(!documents::has_key(front, row[n].0)) by {
            if documents::has_key(front, row[n].0) {
                let i = choose|i: int| 0 <= i < front.len() && (#[trigger] front[i]).0 == row[n].0;
                assert(front[i].0 == d[i].0);
                assert(row[i].0 == row[n].0);
            }
        }
        assert(documents::row_entries(row) =~= all);
    }
}

proof fn lemma_two_sections(a: (Text, Seq<RowView>), b: (Text, Seq<RowView>))
    requires
        a.0 != b.0,
    ensures
        documents::sections_tree(seq![a, b]) == Tree::Table(
            seq![(a.0, documents::rows_tree(a.1)), (b.0, documents::rows_tree(b.1))],
        ),
        documents::sections_tree(seq![a]) == Tree::Table(
            seq![(a.0, documents::rows_tree(a.1))],
        ),
{
    let none = Seq::<(Text, Seq<RowView>)>::empty();
    let one = seq![a];
    let two = seq![a, b];
    assert(one.drop_last() =~= none);
    assert(one.last() == a);
    assert(two.drop_last() =~= one);
    assert(two.last() == b);
    let x = documents::sections_entries(one);
    assert(documents::sections_entries(none) =~= Seq::empty());
    assert(x =~= seq![(a.0, documents::rows_tree(a.1))]);
    assert(!documents::has_key(x, b.0));
    assert(documents::sections_entries(two) =~= seq![
        (a.0, documents::rows_tree(a.1)),
        (b.0, documents::rows_tree(b.1)),
    ]);
}

/// A plan as a document is a table of what is left to the system and of the steps. Each of the first
/// has a name and a version, and each step, in its place, what is done, a name, a revision and a
/// version.
pub proof fn lemma_plan_document(plan: PlanView)
    ensures
        ({
            let left = Seq::new(
                plan.satisfied_by_system.len(),
                |i: int|
                    Tree::Table(
                        seq![
                            ("name"@, Tree::Text(plan.satisfied_by_system[i].0)),
                            ("version"@, Tree::Text(plan.satisfied_by_system[i].1)),
                        ],
                    ),
            );
            let steps = Seq::new(
                plan.steps.len(),
                |i: int|
                    Tree::Table(
                        seq![
                            (
                                "action"@,
                                Tree::Text(
                                    match plan.steps[i].action {
                                        PlanAction::Install => "Install"@,
                                        PlanAction::Upgrade => "Upgrade"@,
                                        PlanAction::Remove => "Remove"@,
                                    },
                                ),
                            ),
                            ("name"@, Tree::Text(plan.steps[i].name)),
                            ("revision"@, Tree::Number(plan.steps[i].revision as int)),
                            ("version"@, Tree::Text(plan.steps[i].version)),
                        ],
                    ),
            );
            let document = Tree::Table(
                seq![("satisfied_by_system"@, Tree::List(left)), ("steps"@, Tree::List(steps))],
            );
            &&& documents::json_text(document) matches Ok(s) ==> plan_output::plan_text(
                plan,
                OutputFormat::Json,
            ) == s + "\n"@
            &&& documents::toml_text(document) matches Ok(s) ==> plan_output::plan_text(
                plan,
                OutputFormat::Toml,
            ) == s + "\n"@
        }),
        plan.satisfied_by_system.len() == 0 ==> plan_output::plan_text(plan, OutputFormat::Human)
            == plan_output::step_lines(plan.steps),
        plan_output::step_lines(plan.steps).is_prefix_of(
            plan_output::plan_text(plan, OutputFormat::Human),
        ),
{
    let left = Seq::new(
        plan.satisfied_by_system.len(),
        |i: int|
            Tree::Table(
                seq![
                    ("name"@, Tree::Text(plan.satisfied_by_system[i].0)),
                    ("version"@, Tree::Text(plan.satisfied_by_system[i].1)),
                ],
            ),
    );
    let steps = Seq::new(
        plan.steps.len(),
        |i: int|
            Tree::Table(
                seq![
                    (
                        "action"@,
                        Tree::Text(
                            match plan.steps[i].action {
                                PlanAction::Install => "Install"@,
                                PlanAction::Upgrade => "Upgrade"@,
                                PlanAction::Remove => "Remove"@,
                            },
                        ),
                    ),
                    ("name"@, Tree::Text(plan.steps[i].name)),
                    ("revision"@, Tree::Number(plan.steps[i].revision as int)),
                    ("version"@, Tree::Text(plan.steps[i].version)),
                ],
            ),
    );
    reveal_strlit("satisfied_by_system");
    reveal_strlit("steps");
    assert("satisfied_by_system"@.len() != "steps"@.len());
    let a = ("satisfied_by_system"@, search::package_rows(plan.satisfied_by_system));
    let b = ("steps"@, plan_output::step_rows(plan.steps));
    lemma_two_sections(a, b);
    assert forall|i: int| 0 <= i < plan.satisfied_by_system.len() implies Tree::Table(
        documents::row_entries(#[trigger] a.1[i]),
    ) == left[i] by {
        lemma_package_row(plan.satisfied_by_system[i]);
    }
    assert forall|i: int| 0 <= i < plan.steps.len() implies Tree::Table(
        documents::row_entries(#[trigger] b.1[i]),
    ) == steps[i] by {
        lemma_step_row(plan, i);
    }
    assert(documents::rows_tree(a.1)->List_0 =~= left);
    assert(documents::rows_tree(b.1)->List_0 =~= steps);
    let lines = plan_output::step_lines(plan.steps);
    let human = plan_output::plan_text(plan, OutputFormat::Human);
    assert(lines =~= human.subrange(0, lines.len() as int));
}

proof fn lemma_package_row(p: (Text, Text))
    ensures
        documents::row_entries(search::package_row(p)) == seq![
            ("name"@, Tree::Text(p.0)),
            ("version"@, Tree::Text(p.1)),
        ],
{
    reveal_strlit("name");
    reveal_strlit("version");
    assert("name"@.len() != "version"@.len());
    let row = search::package_row(p);
    lemma_row(row);
    assert(documents::row_entries(row) =~= seq![
        ("name"@, Tree::Text(p.0)),
        ("version"@, Tree::Text(p.1)),
    ]);
}

proof fn lemma_step_row(plan: PlanView, i: int)
    requires
        0 <= i < plan.steps.len(),
    ensures
        documents::row_entries(plan_output::step_row(plan.steps[i])) == seq![
            (
                "action"@,
                Tree::Text(
                    match plan.steps[i].action {
                        PlanAction::Install => "Install"@,
                        PlanAction::Upgrade => "Upgrade"@,
                        PlanAction::Remove => "Remove"@,
                    },
                ),
            ),
            ("name"@, Tree::Text(plan.steps[i].name)),
            ("revision"@, Tree::Number(plan.steps[i].revision as int)),
            ("version"@, Tree::Text(plan.steps[i].version)),
        ],
{
    reveal_strlit("action");
    reveal_strlit("name");
    reveal_strlit("revision");
    reveal_strlit("version");
    assert("action"@.len() == 6 && "name"@.len() == 4 && "revision"@.len() == 8 && "version"@.len()
        == 7);
    let row = plan_output::step_row(plan.steps[i]);
    lemma_row(row);
    assert(documents::row_entries(row) =~= seq![
        (
            "action"@,
            Tree::Text(
                match plan.steps[i].action {
                    PlanAction::Install => "Install"@,
                    PlanAction::Upgrade => "Upgrade"@,
                    PlanAction::Remove => "Remove"@,
                },
            ),
        ),
        ("name"@, Tree::Text(plan.steps[i].name)),
        ("revision"@, Tree::Number(plan.steps[i].revision as int)),
        ("version"@, Tree::Text(plan.steps[i].version)),
    ]);
}

/// A search prints what it finds in the index of the packages: as a document, a table with the
/// packages, each with its name and version; for people, their lines. Where the packages cannot be
/// read, or there are none, it fails.
pub proof fn lemma_search_output(
    use_color: bool,
    dir: Text,
    packages: Seq<ManifestView>,
    pattern: Option<Text>,
    e: Text,
)
    ensures
        ({
            let found = search::found(available::indexed(packages), pattern);
            let rows = Seq::new(
                found.len(),
                |i: int|
                    Tree::Table(
                        seq![("name"@, Tree::Text(found[i].0)), ("version"@, Tree::Text(found[i].1))],
                    ),
            );
            let document = Tree::Table(seq![("packages"@, Tree::List(rows))]);
            let out = |format: OutputFormatArg|
                search::search_output(format, use_color, dir, Ok(packages), pattern);
            &&& packages.len() > 0 ==> out(OutputFormatArg::Human).stdout == search::package_lines(
                found,
            ) && out(OutputFormatArg::Human).code == 0
            &&& packages.len() > 0 ==> (documents::json_text(document) matches Ok(s) ==> out(
                OutputFormatArg::Json,
            ).stdout == s + "\n"@ && out(OutputFormatArg::Json).code == 0)
            &&& packages.len() > 0 ==> (documents::toml_text(document) matches Ok(s) ==> out(
                OutputFormatArg::Toml,
            ).stdout == s + "\n"@ && out(OutputFormatArg::Toml).code == 0)
            &&& packages.len() == 0 ==> forall|format: OutputFormatArg|
                (#[trigger] search::search_output(format, use_color, dir, Ok(packages), pattern)).code
                    == 3
        }),
        forall|format: OutputFormatArg|
            (#[trigger] search::search_output(format, use_color, dir, Err(e), pattern)).code == 3,
        search::search_output(OutputFormatArg::Human, false, dir, Err(e), pattern).stderr
            == "sic: failed to read packages from "@ + dir + ": "@ + e + "\n"@,
        packages.len() == 0 ==> search::search_output(
            OutputFormatArg::Human,
            false,
            dir,
            Ok(packages),
            pattern,
        ).stderr == "sic: no packages found in "@ + dir + "\n"@,
{
    let found = search::found(available::indexed(packages), pattern);
    let rows = Seq::new(
        found.len(),
        |i: int|
            Tree::Table(
                seq![("name"@, Tree::Text(found[i].0)), ("version"@, Tree::Text(found[i].1))],
            ),
    );
    let a = ("packages"@, search::package_rows(found));
    lemma_one_section(a);
    assert forall|i: int| 0 <= i < found.len() implies Tree::Table(
        documents::row_entries(#[trigger] a.1[i]),
    ) == rows[i] by {
        lemma_package_row(found[i]);
    }
    assert(documents::rows_tree(a.1)->List_0 =~= rows);
}

proof fn lemma_one_section(a: (Text, Seq<RowView>))
    ensures
        documents::sections_tree(seq![a]) == Tree::Table(seq![(a.0, documents::rows_tree(a.1))]),
{
    let other = (a.0.push('x'), a.1);
    assert(other.0.len() != a.0.len());
    lemma_two_sections(a, other);
}

/// The status lists the installed packages, each in its place: as JSON their rows, as TOML a table
/// with the rows, for people their lines. What cannot be loaded is said, and the command fails.
pub proof fn lemma_status_output(
    use_color: bool,
    entries: Seq<InstalledEntryView>,
    path: Text,
    packages: Option<Seq<LockfilePackageView>>,
    i: int,
)
    requires
        0 <= i < entries.len(),
    ensures
        ({
            let row = status::status_row(entries[i], packages);
            let out = |format: OutputFormatArg|
                status::status_output(format, use_color, Ok(entries), path, Ok(packages));
            let json = documents::rows_tree(status::status_rows(entries, packages));
            &&& out(OutputFormatArg::Human).stdout == status::status_lines(entries, packages)
            &&& out(OutputFormatArg::Human).code == 0
            &&& json matches Tree::List(list) && list.len() == entries.len() && list[i]
                == Tree::Table(
                row.map_values(|f: (Text, ScalarView)| (f.0, documents::scalar_tree(f.1))),
            )
            &&& documents::json_text(json) matches Ok(s) ==> out(OutputFormatArg::Json).stdout == s
                + "\n"@ && out(OutputFormatArg::Json).code == 0
            &&& documents::toml_text(Tree::Table(seq![("packages"@, json)])) matches Ok(s) ==> out(
                OutputFormatArg::Toml,
            ).stdout == s + "\n"@ && out(OutputFormatArg::Toml).code == 0
        }),
{
    let rows = status::status_rows(entries, packages);
    lemma_one_section(("packages"@, rows));
    lemma_status_keys(entries[i], packages);
    lemma_row(status::status_row(entries[i], packages));
    assert(rows[i] == status::status_row(entries[i], packages));
}

proof fn lemma_status_keys(e: InstalledEntryView, packages: Option<Seq<LockfilePackageView>>)
    ensures
        keys_differ(status::status_row(e, packages)),
{
    reveal_strlit("install_path");
    reveal_strlit("locked_version");
    reveal_strlit("lockfile_status");
    reveal_strlit("name");
    reveal_strlit("revision");
    reveal_strlit("version");
    assert("install_path"@.len() == 12 && "locked_version"@.len() == 14 && "lockfile_status"@.len()
        == 15 && "name"@.len() == 4 && "revision"@.len() == 8 && "version"@.len() == 7);
    let row = status::status_row(e, packages);
    let more = status::lock_fields(e, packages);
    assert(row.len() == 4 + more.len());
    assert forall|i: int, j: int|
        #![trigger row[i], row[j]]
        0 <= i < j < row.len() implies row[i].0 != row[j].0 by {
        if 1 <= i < 1 + more.len() {
            assert(row[i] == more[i - 1]);
        }
        if 1 <= j < 1 + more.len() {
            assert(row[j] == more[j - 1]);
        }
    }
}

/// A status that cannot load the installed packages, or else the lockfile, says so and fails.
pub proof fn lemma_status_failures(
    format: OutputFormatArg,
    entries: Seq<InstalledEntryView>,
    path: Text,
    a: InstalledLoadErrorView,
    b: LockfileLoadErrorView,
    lockfile: Result<Option<Seq<LockfilePackageView>>, LockfileLoadErrorView>,
)
    ensures
        status::status_output(format, false, Err(a), path, lockfile).code == 3,
        status::status_output(format, false, Err(a), path, lockfile).stderr
            == "sic: failed to load installed.toml: "@ + crate::storage::installed::load_error_text(
            a,
        ) + "\n"@,
        status::status_output(format, false, Ok(entries), path, Err(b)).code == 3,
        status::status_output(format, false, Ok(entries), path, Err(b)).stderr
            == "sic: failed to load lockfile "@ + path + ": "@
            + crate::storage::lockfile::load_error_text(b) + "\n"@,
{
}

/// The doctor prints all three checks: as JSON each with whether it is ok and then its issues, as TOML
/// by key, for people line by line. The exit code is the same in each format.
pub proof fn lemma_doctor_output(use_color: bool, result: DoctorResultView)
    ensures
        ({
            let texts = |list: Seq<Text>| Tree::List(list.map_values(|s: Text| Tree::Text(s)));
            let plain = |c: DoctorCheckResultView|
                Tree::Table(seq![("ok"@, Tree::Flag(c.ok)), ("issues"@, texts(c.issues))]);
            let keyed = |c: DoctorCheckResultView|
                Tree::Table(seq![("issues"@, texts(c.issues)), ("ok"@, Tree::Flag(c.ok))]);
            let json = Tree::Table(
                seq![
                    ("layout"@, plain(result.layout)),
                    ("lockfile"@, plain(result.lockfile)),
                    ("symlinks"@, plain(result.symlinks)),
                ],
            );
            let toml = Tree::Table(
                seq![
                    ("layout"@, keyed(result.layout)),
                    ("lockfile"@, keyed(result.lockfile)),
                    ("symlinks"@, keyed(result.symlinks)),
                ],
            );
            let out = |format: OutputFormatArg| diagnosis::doctor_output(format, use_color, result);
            &&& documents::json_text(json) matches Ok(s) ==> out(OutputFormatArg::Json).stdout == s
                + "\n"@ && out(OutputFormatArg::Json).code == diagnosis::doctor_code(result)
            &&& documents::toml_text(toml) matches Ok(s) ==> out(OutputFormatArg::Toml).stdout == s
                + "\n"@ && out(OutputFormatArg::Toml).code == diagnosis::doctor_code(result)
            &&& out(OutputFormatArg::Human).code == diagnosis::doctor_code(result)
            &&& out(OutputFormatArg::Human).stdout == diagnosis::check_lines(
                "Layout"@,
                result.layout,
            ) + diagnosis::check_lines("Lockfile vs installed"@, result.lockfile)
                + diagnosis::check_lines("Symlinks"@, result.symlinks)
        }),
{
    lemma_checks(result, false);
    lemma_checks(result, true);
}

proof fn lemma_checks(result: DoctorResultView, by_key: bool)
    ensures
        documents::checks_tree(diagnosis::checks(result), by_key) == Tree::Table(
            seq![
                (
                    "layout"@,
                    documents::check_tree(result.layout.ok, result.layout.issues, by_key),
                ),
                (
                    "lockfile"@,
                    documents::check_tree(result.lockfile.ok, result.lockfile.issues, by_key),
                ),
                (
                    "symlinks"@,
                    documents::check_tree(result.symlinks.ok, result.symlinks.issues, by_key),
                ),
            ],
        ),
{
    reveal_strlit("layout");
    reveal_strlit("lockfile");
    reveal_strlit("symlinks");
    assert("layout"@.len() == 6 && "lockfile"@.len() == 8 && "symlinks"@.len() == 8);
    assert("lockfile"@[0] == 'l' && "symlinks"@[0] == 's');
    let all = diagnosis::checks(result);
    let a = all[0];
    let b = all[1];
    let c = all[2];
    let none = Seq::<(Text, (bool, Seq<Text>))>::empty();
    let one = seq![a];
    let two = seq![a, b];
    assert(all.drop_last() =~= two);
    assert(two.drop_last() =~= one);
    assert(one.drop_last() =~= none);
    assert(all.last() == c && two.last() == b && one.last() == a);
    let x = documents::checks_entries(one, by_key);
    let y = documents::checks_entries(two, by_key);
    assert(documents::checks_entries(none, by_key) =~= Seq::empty());
    assert(x =~= seq![(a.0, documents::check_tree(a.1.0, a.1.1, by_key))]);
    assert(!documents::has_key(x, b.0));
    assert(y =~= seq![
        (a.0, documents::check_tree(a.1.0, a.1.1, by_key)),
        (b.0, documents::check_tree(b.1.0, b.1.1, by_key)),
    ]);
    assert(!documents::has_key(y, c.0)) by {
        if documents::has_key(y, c.0) {
            let i = choose|i: int| 0 <= i < y.len() && (#[trigger] y[i]).0 == c.0;
            assert(i == 0 || i == 1);
        }
    }
    assert(documents::checks_entries(all, by_key) =~= y.push(
        (c.0, documents::check_tree(c.1.0, c.1.1, by_key)),
    ));
    assert(documents::checks_entries(all, by_key) =~= seq![
        (a.0, documents::check_tree(a.1.0, a.1.1, by_key)),
        (b.0, documents::check_tree(b.1.0, b.1.1, by_key)),
        (c.0, documents::check_tree(c.1.0, c.1.1, by_key)),
    ]);
}

} // verus!
