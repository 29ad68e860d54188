//! What is printed of a plan.

use vstd::prelude::*;
use vstd::string::*;

use crate::cli::search;
use crate::documents;
use crate::documents::{Row, RowView, Scalar, ScalarView};
use crate::failure::OutputFormat;
use crate::package_name::PackageName;
use crate::resolver::plan::{Plan, PlanAction, PlanStep, PlanStepView, PlanView};
use crate::system_packages::SystemPackages;
use crate::table;
use crate::text;
use crate::text::Text;
use crate::version::Version;

verus! {

/// The warnings for the steps that shadow a system package of the same name.
pub open spec fn shadowing_warnings(steps: Seq<PlanStepView>, system: Seq<(Text, Text)>) -> Text
    decreases steps.len(),
{
    if steps.len() == 0 {
        Seq::empty()
    } else {
        let front = shadowing_warnings(steps.drop_last(), system);
        let step = steps.last();
        if step.action != PlanAction::Remove && table::get(system, step.name) is Some {
            front + "sic: warning: sic package "@ + step.name + " shadows system package "@
                + step.name + "; may affect ABI\n"@
        } else {
            front
        }
    }
}

/// The warnings, one line for each sic package in the plan that shadows a system package (same
/// name).
pub fn emit_shadowing_warnings(plan: &Plan, system: &SystemPackages) -> (r: String)
    ensures
        r@ == shadowing_warnings(plan@.steps, system@),
{
    let ghost all = plan@.steps;
    let mut out = String::new();
    let mut i: usize = 0;
    assert(out@ =~= Seq::empty());
    while i < plan.steps.len()
        invariant
            i <= plan.steps@.len(),
            all == plan.steps.deep_view(),
            out@ == shadowing_warnings(all.take(i as int), system@),
        decreases plan.steps@.len() - i,
    {
        let step = &plan.steps[i];
        assert(all[i as int] == step@);
        assert(all.take(i + 1).drop_last() == all.take(i as int));
        if step.action != PlanAction::Remove && system.get(&step.name).is_some() {
            out.append("sic: warning: sic package ");
            out.append(step.name.as_str());
            out.append(" shadows system package ");
            out.append(step.name.as_str());
            out.append("; may affect ABI\n");
        }
        i += 1;
    }
    assert(all.take(all.len() as int) == all);
    out
}

/// The action in a word.
pub open spec fn action_text(action: PlanAction) -> Text {
    match action {
        PlanAction::Install => "Install"@,
        PlanAction::Upgrade => "Upgrade"@,
        PlanAction::Remove => "Remove"@,
    }
}

fn action_word(action: PlanAction) -> (r: &'static str)
    ensures
        r@ == action_text(action),
{
    match action {
        PlanAction::Install => "Install",
        PlanAction::Upgrade => "Upgrade",
        PlanAction::Remove => "Remove",
    }
}

/// The row of a step, by key.
pub open spec fn step_row(s: PlanStepView) -> RowView {
    seq![
        ("action"@, ScalarView::Text(action_text(s.action))),
        ("name"@, ScalarView::Text(s.name)),
        ("revision"@, ScalarView::Number(s.revision)),
        ("version"@, ScalarView::Text(s.version)),
    ]
}

/// The rows of the steps.
pub open spec fn step_rows(steps: Seq<PlanStepView>) -> Seq<RowView> {
    steps.map_values(|s: PlanStepView| step_row(s))
}

/// The plan as a document: what the system satisfies, and its steps, by key.
pub open spec fn plan_sections(plan: PlanView) -> Seq<(Text, Seq<RowView>)> {
    seq![
        ("satisfied_by_system"@, search::package_rows(plan.satisfied_by_system)),
        ("steps"@, step_rows(plan.steps)),
    ]
}

/// The lines of the steps.
pub open spec fn step_lines(steps: Seq<PlanStepView>) -> Text
    decreases steps.len(),
{
    if steps.len() == 0 {
        Seq::empty()
    } else {
        let s = steps.last();
        step_lines(steps.drop_last()) + "  "@ + s.name + " "@ + s.version + " ("@ + action_text(
            s.action,
        ) + ")\n"@
    }
}

/// A package that the system satisfies.
pub open spec fn satisfied_text(p: (Text, Text)) -> Text {
    "(PackageName("@ + text::quoted(p.0) + "), Version("@ + text::quoted(p.1) + "))"@
}

/// The packages that the system satisfies.
pub open spec fn satisfied_texts(list: Seq<(Text, Text)>) -> Seq<Text> {
    list.map_values(|p: (Text, Text)| satisfied_text(p))
}

/// The plan in words: a line for each step, and one for what the system satisfies.
pub open spec fn plan_lines(plan: PlanView) -> Text {
    if plan.satisfied_by_system.len() == 0 {
        step_lines(plan.steps)
    } else {
        step_lines(plan.steps) + "  satisfied by system: ["@ + text::joined(
            satisfied_texts(plan.satisfied_by_system),
            ", "@,
        ) + "]\n"@
    }
}

/// A document as it is printed: nothing where it cannot be written.
pub open spec fn shown(outcome: Result<Text, Text>) -> Text {
    match outcome {
        Ok(s) => s + "\n"@,
        Err(_) => Seq::empty(),
    }
}

/// What is printed of a plan.
pub open spec fn plan_text(plan: PlanView, format: OutputFormat) -> Text {
    match format {
        OutputFormat::Json => shown(
            documents::json_text(documents::sections_tree(plan_sections(plan))),
        ),
        OutputFormat::Toml => shown(
            documents::toml_text(documents::sections_tree(plan_sections(plan))),
        ),
        OutputFormat::Human => plan_lines(plan),
    }
}

fn make_step_rows(steps: &Vec<PlanStep>) -> (r: Vec<Row>)
    ensures
        r.deep_view() == step_rows(steps.deep_view()),
{
    let mut rows: Vec<Row> = Vec::new();
    let mut i: usize = 0;
    while i < steps.len()
        invariant
            i <= steps@.len(),
            rows@.len() == i,
            forall|j: int|
                0 <= j < i ==> (#[trigger] rows@[j]).deep_view() == step_row(steps@[j]@),
        decreases steps@.len() - i,
    {
        let s = &steps[i];
        let row: Row = vec![
            ("action".to_owned(), Scalar::Text(action_word(s.action).to_owned())),
            ("name".to_owned(), Scalar::Text(s.name.to_string())),
            ("revision".to_owned(), Scalar::Number(s.revision)),
            ("version".to_owned(), Scalar::Text(s.version.to_string())),
        ];
        assert(row.deep_view() =~= step_row(s@));
        rows.push(row);
        i += 1;
    }
    assert(rows.deep_view() =~= step_rows(steps.deep_view()));
    rows
}

fn pairs_of(list: &Vec<(PackageName, Version)>) -> (r: Vec<(String, String)>)
    ensures
        r.deep_view() == list.deep_view(),
{
    let mut out: Vec<(String, String)> = Vec::new();
    let mut i: usize = 0;
    while i < list.len()
        invariant
            i <= list@.len(),
            out@.len() == i,
            forall|j: int| 0 <= j < i ==> (#[trigger] out@[j]).deep_view() == list@[j].deep_view(),
        decreases list@.len() - i,
    {
        out.push((list[i].0.to_string(), list[i].1.to_string()));
        i += 1;
    }
    assert(out.deep_view() =~= list.deep_view());
    out
}

/// The plan as a document: what the system satisfies, and its steps, by key.
pub fn make_plan_sections(plan: &Plan) -> (r: Vec<(String, Vec<Row>)>)
    ensures
        r.deep_view() == plan_sections(plan@),
{
    let steps = make_step_rows(&plan.steps);
    let satisfied = search::make_rows(&pairs_of(&plan.satisfied_by_system));
    let ghost sv = steps.deep_view();
    let ghost tv = satisfied.deep_view();
    let sections = vec![
        ("satisfied_by_system".to_owned(), satisfied),
        ("steps".to_owned(), steps),
    ];
    assert(sections.deep_view() =~= seq![("satisfied_by_system"@, tv), ("steps"@, sv)]);
    sections
}

fn format_satisfied(list: &Vec<(PackageName, Version)>) -> (r: String)
    ensures
        r@ == text::joined(satisfied_texts(list.deep_view()), ", "@),
{
    let mut texts: Vec<String> = Vec::new();
    let mut i: usize = 0;
    while i < list.len()
        invariant
            i <= list@.len(),
            texts@.len() == i,
            forall|j: int|
                0 <= j < i ==> (#[trigger] texts@[j])@ == satisfied_text(list@[j].deep_view()),
        decreases list@.len() - i,
    {
        texts.push(
            "(PackageName(".to_owned().concat(
                text::to_quoted(list[i].0.as_str()).as_str(),
            ).concat("), Version(").concat(text::to_quoted(list[i].1.as_str()).as_str()).concat(
                "))",
            ),
        );
        i += 1;
    }
    assert(texts.deep_view() =~= satisfied_texts(list.deep_view()));
    text::join(&texts, ", ")
}

/// A document as it is printed: nothing where it cannot be written.
pub fn show_document(outcome: Result<String, String>) -> (r: String)
    ensures
        r@ == shown(crate::views::result_view(outcome)),
{
    match outcome {
        Ok(s) => s.concat("\n"),
        Err(_) => {
            let r = String::new();
            assert(r@ =~= Seq::empty());
            r
        },
    }
}

/// What is printed of a plan.
pub fn print_plan(plan: &Plan, format: OutputFormat) -> (r: String)
    ensures
        r@ == plan_text(plan@, format),
{
    match format {
        OutputFormat::Json => show_document(
            documents::sections_to_json(&make_plan_sections(plan)),
        ),
        OutputFormat::Toml => show_document(
            documents::sections_to_toml(&make_plan_sections(plan)),
        ),
        OutputFormat::Human => {
            let ghost all = plan@.steps;
            let mut out = String::new();
            let mut i: usize = 0;
            assert(out@ =~= Seq::empty());
            while i < plan.steps.len()
                invariant
                    i <= plan.steps@.len(),
                    all == plan.steps.deep_view(),
                    out@ == step_lines(all.take(i as int)),
                decreases plan.steps@.len() - i,
            {
                let s = &plan.steps[i];
                assert(all[i as int] == s@);
                assert(all.take(i + 1).drop_last() == all.take(i as int));
                out.append("  ");
                out.append(s.name.as_str());
                out.append(" ");
                out.append(s.version.as_str());
                out.append(" (");
                out.append(action_word(s.action));
                out.append(")\n");
                i += 1;
            }
            assert(all.take(all.len() as int) == all);
            assert(plan.satisfied_by_system.deep_view().len() == plan.satisfied_by_system@.len());
            if plan.satisfied_by_system.len() > 0 {
                out.append("  satisfied by system: [");
                out.append(format_satisfied(&plan.satisfied_by_system).as_str());
                out.append("]\n");
            }
            out
        },
    }
}

} // verus!
