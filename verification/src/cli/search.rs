//! `sic search`: the available packages.

use vstd::prelude::*;
use vstd::string::*;

use crate::cli::args::{GlobalOpts, OutputFormatArg};
use crate::cli::output;
use crate::cli::output::{Output, OutputView, EXIT_OK, EXIT_OTHER};
use crate::documents;
use crate::documents::{Row, RowView, Scalar, ScalarView};
use crate::manifest::{Manifest, ManifestView};
use crate::resolver::available;
use crate::resolver::available::{AvailablePackages, Index};
use crate::table;
use crate::text;
use crate::text::Text;
use crate::views;

verus! {

/// Whether the name contains the pattern, in any case.
pub open spec fn name_matches(name: Text, pattern: Option<Text>) -> bool {
    match pattern {
        Some(p) => text::contains_text(text::lowered(name), text::lowered(p)),
        None => true,
    }
}

/// The packages whose names match the pattern, each with its latest version.
pub open spec fn found(t: Index, pattern: Option<Text>) -> Seq<(Text, Text)>
    decreases t.len(),
{
    if t.len() == 0 {
        Seq::empty()
    } else {
        let front = found(t.drop_last(), pattern);
        if name_matches(t.last().0, pattern) {
            front.push((t.last().0, t.last().1.last().version))
        } else {
            front
        }
    }
}

/// The row of a package.
pub open spec fn package_row(p: (Text, Text)) -> RowView {
    seq![("name"@, ScalarView::Text(p.0)), ("version"@, ScalarView::Text(p.1))]
}

/// The rows of the packages.
pub open spec fn package_rows(list: Seq<(Text, Text)>) -> Seq<RowView> {
    list.map_values(|p: (Text, Text)| package_row(p))
}

/// The lines of the packages.
pub open spec fn package_lines(list: Seq<(Text, Text)>) -> Text
    decreases list.len(),
{
    if list.len() == 0 {
        Seq::empty()
    } else {
        package_lines(list.drop_last()) + list.last().0 + "\t"@ + list.last().1 + "\n"@
    }
}

/// What `sic search` prints.
pub open spec fn search_output(
    format: OutputFormatArg,
    use_color: bool,
    packages_dir: Text,
    packages: Result<Seq<ManifestView>, Text>,
    pattern: Option<Text>,
) -> OutputView {
    match packages {
        Err(e) => output::failed(
            output::unreadable_packages(packages_dir, e),
            use_color,
            EXIT_OTHER,
        ),
        Ok(list) => if list.len() == 0 {
            output::failed(output::no_packages(packages_dir), use_color, EXIT_OTHER)
        } else {
            let results = found(available::indexed(list), pattern);
            let sections = seq![("packages"@, package_rows(results))];
            match format {
                OutputFormatArg::Json => output::printed(
                    documents::json_text(documents::sections_tree(sections)),
                    use_color,
                    EXIT_OK,
                ),
                OutputFormatArg::Toml => output::printed(
                    documents::toml_text(documents::sections_tree(sections)),
                    use_color,
                    EXIT_OK,
                ),
                OutputFormatArg::Human => output::succeeded(package_lines(results)),
            }
        },
    }
}

/// The packages whose names match the pattern, each with its latest version.
pub fn find_packages(available: &AvailablePackages, pattern: Option<&str>) -> (r: Vec<
    (String, String),
>)
    ensures
        r.deep_view() == found(available@, pattern.deep_view()),
{
    let pattern_lower: Option<String> = match pattern {
        Some(p) => Some(text::to_lowercase(p)),
        None => None,
    };
    let names = available.all_names();
    let ghost t = available@;
    let mut out: Vec<(String, String)> = Vec::new();
    let mut i: usize = 0;
    assert(out.deep_view() =~= Seq::empty());
    assert(names.deep_view().len() == names@.len());
    while i < names.len()
        invariant
            i <= names@.len(),
            names.deep_view() == available::names_of(t),
            names@.len() == t.len(),
            t == available@,
            available::well_indexed(t),
            pattern_lower.deep_view() == match pattern {
                Some(p) => Some(text::lowered(p@)),
                None => None,
            },
            out.deep_view() == found(t.take(i as int), pattern.deep_view()),
        decreases names@.len() - i,
    {
        let ghost before = out.deep_view();
        let name = names[i];
        assert(names.deep_view()[i as int] == name@);
        assert(t.take(i + 1).drop_last() == t.take(i as int));
        proof {
            table::lemma_get(t, i as int);
            assert(table::has(t, t[i as int].0));
        }
        let hit = match &pattern_lower {
            Some(p) => text::has_text(text::to_lowercase(name.as_str()).as_str(), p.as_str()),
            None => true,
        };
        if hit {
            if let Some(latest) = available.get_latest(name) {
                out.push((name.to_string(), latest.version.to_string()));
                assert(out.deep_view() =~= before.push((name@, latest@.version)));
            }
        }
        i += 1;
    }
    assert(t.take(t.len() as int) == t);
    out
}

/// The rows of the packages.
pub fn make_rows(list: &Vec<(String, String)>) -> (r: Vec<Row>)
    ensures
        r.deep_view() == package_rows(list.deep_view()),
{
    let mut rows: Vec<Row> = Vec::new();
    let mut i: usize = 0;
    while i < list.len()
        invariant
            i <= list@.len(),
            rows@.len() == i,
            forall|j: int|
                0 <= j < i ==> (#[trigger] rows@[j]).deep_view() == package_row(
                    list@[j].deep_view(),
                ),
        decreases list@.len() - i,
    {
        let row: Row = vec![
            ("name".to_owned(), Scalar::Text(list[i].0.clone())),
            ("version".to_owned(), Scalar::Text(list[i].1.clone())),
        ];
        assert(row.deep_view() =~= package_row(list@[i as int].deep_view()));
        rows.push(row);
        i += 1;
    }
    assert(rows.deep_view() =~= package_rows(list.deep_view()));
    rows
}

/// Lists available packages from packages dir. No fetch or install.
pub fn run_search(
    global: &GlobalOpts,
    use_color: bool,
    packages_dir: &str,
    packages: Result<Vec<Manifest>, String>,
    pattern: Option<&str>,
) -> (r: Output)
    ensures
        r@ == search_output(
            global.output,
            use_color,
            packages_dir@,
            views::result_view(packages),
            pattern.deep_view(),
        ),
{
    let packages = match packages {
        Ok(packages) => packages,
        Err(e) => {
            return output::fail(
                output::unreadable_packages_message(packages_dir, e.as_str()).as_str(),
                use_color,
                EXIT_OTHER,
            );
        },
    };
    assert(packages.deep_view().len() == packages@.len());
    if packages.len() == 0 {
        return output::fail(
            output::no_packages_message(packages_dir).as_str(),
            use_color,
            EXIT_OTHER,
        );
    }
    let available = AvailablePackages::from_packages(packages);
    let results = find_packages(&available, pattern);
    match global.output {
        OutputFormatArg::Human => {
            let ghost all = results.deep_view();
            let mut out = String::new();
            let mut i: usize = 0;
            assert(out@ =~= Seq::empty());
            while i < results.len()
                invariant
                    i <= results@.len(),
                    all == results.deep_view(),
                    out@ == package_lines(all.take(i as int)),
                decreases results@.len() - i,
            {
                assert(all[i as int] == results@[i as int].deep_view());
                assert(all.take(i + 1).drop_last() == all.take(i as int));
                out.append(results[i].0.as_str());
                out.append("\t");
                out.append(results[i].1.as_str());
                out.append("\n");
                i += 1;
            }
            assert(all.take(all.len() as int) == all);
            output::succeed(out)
        },
        format => {
            let rows = make_rows(&results);
            let ghost rv = rows.deep_view();
            let sections = vec![("packages".to_owned(), rows)];
            assert(sections.deep_view() =~= seq![("packages"@, rv)]);
            let outcome = match format {
                OutputFormatArg::Json => documents::sections_to_json(&sections),
                _ => documents::sections_to_toml(&sections),
            };
            output::print_document(outcome, use_color, EXIT_OK)
        },
    }
}

} // verus!
