//! `sic doctor`: what the checks found.

use vstd::prelude::*;
use vstd::string::*;

use crate::cli::args::{GlobalOpts, OutputFormatArg};
use crate::cli::output;
use crate::cli::output::{Output, OutputView, EXIT_OK, EXIT_OTHER};
use crate::doctor::{DoctorCheckResult, DoctorCheckResultView, DoctorResult, DoctorResultView};
use crate::documents;
use crate::text;
use crate::text::Text;

verus! {

/// The lines of the issues.
pub open spec fn issue_lines(issues: Seq<Text>) -> Text
    decreases issues.len(),
{
    if issues.len() == 0 {
        Seq::empty()
    } else {
        issue_lines(issues.drop_last()) + "  "@ + issues.last() + "\n"@
    }
}

/// The lines of a check.
pub open spec fn check_lines(title: Text, check: DoctorCheckResultView) -> Text {
    if check.ok {
        title + ": OK\n"@
    } else {
        title + ": "@ + text::decimal(check.issues.len()) + " issue(s):\n"@ + issue_lines(
            check.issues,
        )
    }
}

/// The checks as a document.
pub open spec fn checks(result: DoctorResultView) -> Seq<(Text, (bool, Seq<Text>))> {
    seq![
        ("layout"@, (result.layout.ok, result.layout.issues)),
        ("lockfile"@, (result.lockfile.ok, result.lockfile.issues)),
        ("symlinks"@, (result.symlinks.ok, result.symlinks.issues)),
    ]
}

/// The exit code: success only if all checks are ok.
pub open spec fn doctor_code(result: DoctorResultView) -> i32 {
    if result.layout.ok && result.lockfile.ok && result.symlinks.ok {
        EXIT_OK
    } else {
        EXIT_OTHER
    }
}

/// What `sic doctor` prints.
pub open spec fn doctor_output(
    format: OutputFormatArg,
    use_color: bool,
    result: DoctorResultView,
) -> OutputView {
    match format {
        OutputFormatArg::Json => output::printed(
            documents::json_text(documents::checks_tree(checks(result), false)),
            use_color,
            doctor_code(result),
        ),
        OutputFormatArg::Toml => output::printed(
            documents::toml_text(documents::checks_tree(checks(result), true)),
            use_color,
            doctor_code(result),
        ),
        OutputFormatArg::Human => OutputView {
            stdout: check_lines("Layout"@, result.layout) + check_lines(
                "Lockfile vs installed"@,
                result.lockfile,
            ) + check_lines("Symlinks"@, result.symlinks),
            stderr: Seq::empty(),
            code: doctor_code(result),
        },
    }
}

fn format_check(title: &str, check: &DoctorCheckResult) -> (r: String)
    ensures
        r@ == check_lines(title@, check.deep_view()),
{
    if check.ok {
        return title.to_owned().concat(": OK\n");
    }
    let ghost all = check.issues.deep_view();
    assert(all.len() == check.issues@.len());
    let head = title.to_owned().concat(": ").concat(
        text::decimal_text(check.issues.len() as u64).as_str(),
    ).concat(" issue(s):\n");
    let mut lines = String::new();
    let mut i: usize = 0;
    assert(lines@ =~= Seq::empty());
    while i < check.issues.len()
        invariant
            i <= check.issues@.len(),
            all == check.issues.deep_view(),
            lines@ == issue_lines(all.take(i as int)),
        decreases check.issues@.len() - i,
    {
        assert(all[i as int] == check.issues@[i as int]@);
        assert(all.take(i + 1).drop_last() == all.take(i as int));
        lines.append("  ");
        lines.append(check.issues[i].as_str());
        lines.append("\n");
        i += 1;
    }
    assert(all.take(all.len() as int) == all);
    head.concat(lines.as_str())
}

fn named_checks(result: DoctorResult) -> (r: Vec<(String, (bool, Vec<String>))>)
    ensures
        r.deep_view() == checks(result@),
{
    let ghost rv = result@;
    let checks = vec![
        ("layout".to_owned(), (result.layout.ok, result.layout.issues)),
        ("lockfile".to_owned(), (result.lockfile.ok, result.lockfile.issues)),
        ("symlinks".to_owned(), (result.symlinks.ok, result.symlinks.issues)),
    ];
    assert(checks.deep_view() =~= self::checks(rv));
    checks
}

/// Prints the result of the doctor checks (layout, lockfile vs installed, broken symlinks).
pub fn run_doctor(global: &GlobalOpts, use_color: bool, result: DoctorResult) -> (r: Output)
    ensures
        r@ == doctor_output(global.output, use_color, result@),
{
    let code: i32 = if result.overall_ok() {
        EXIT_OK
    } else {
        EXIT_OTHER
    };
    match global.output {
        OutputFormatArg::Json => {
            output::print_document(
                documents::checks_to_json(&named_checks(result)),
                use_color,
                code,
            )
        },
        OutputFormatArg::Toml => {
            output::print_document(
                documents::checks_to_toml(&named_checks(result)),
                use_color,
                code,
            )
        },
        OutputFormatArg::Human => {
            let stdout = format_check("Layout", &result.layout).concat(
                format_check("Lockfile vs installed", &result.lockfile).as_str(),
            ).concat(format_check("Symlinks", &result.symlinks).as_str());
            let r = Output { stdout, stderr: String::new(), code };
            assert(r.stderr@ =~= Seq::empty());
            r
        },
    }
}

} // verus!
