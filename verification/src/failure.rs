//! Structured resolver failure reporting.
//!
//! Explainable, deterministic failure output: categories, TOML/JSON serialization, human-readable
//! summary, and suggested actions. The resolver returns this type on failure; callers use `emit_failure` with the desired
//! format (human/toml/json). Scripts should use JSON output; human output format is kept stable but
//! prefer machine format for parsing.

use vstd::prelude::*;
use vstd::string::*;

use crate::documents;
use crate::documents::{Entry, EntryView, Tree};
use crate::term;
use crate::text;
use crate::text::Text;
use crate::version::Version;
use crate::views;

verus! {

/// Failure category; determines default suggested action when not overridden.
#[derive(Clone, Copy, Debug, Eq, PartialEq, Structural)]
pub enum FailureKind {
    /// Dependency cannot be satisfied (missing package, version constraint).
    Unsatisfiable,
    /// Two packages conflict.
    Conflict,
    /// Platform (arch/os) not supported.
    PlatformMismatch,
    /// Circular dependency.
    Cycle,
    /// Package or version not in lockfile (strict mode).
    NotInLockfile,
    /// Package has dependents; remove them first or use --force.
    HasDependents,
    /// Catch-all (e.g. invalid input).
    Other,
}

/// Structured resolver failure: category plus optional context fields.
#[derive(Debug, Eq, PartialEq)]
pub struct ResolverFailure {
    /// Category.
    pub kind: FailureKind,
    /// Root cause package name.
    pub package: Option<String>,
    /// Version constraint that could not be satisfied (e.g. ">= 13").
    pub version_constraint: Option<String>,
    /// Available versions when constraint failed.
    pub available_versions: Option<Box<Vec<Version>>>,
    /// Dependency strings (e.g. ["ripgrep >= 13"]).
    pub dependencies: Option<Box<Vec<String>>>,
    /// Conflicting package names (for Conflict).
    pub conflicting_packages: Option<Box<Vec<String>>>,
    /// Override default suggested action when set.
    pub suggested_action: Option<String>,
}

/// What a [`ResolverFailure`] holds.
pub struct ResolverFailureView {
    pub kind: FailureKind,
    pub package: Option<Text>,
    pub version_constraint: Option<Text>,
    pub available_versions: Option<Seq<Text>>,
    pub dependencies: Option<Seq<Text>>,
    pub conflicting_packages: Option<Seq<Text>>,
    pub suggested_action: Option<Text>,
}

impl DeepView for ResolverFailure {
    type V = ResolverFailureView;

    open spec fn deep_view(&self) -> ResolverFailureView {
        ResolverFailureView {
            kind: self.kind,
            package: self.package.deep_view(),
            version_constraint: self.version_constraint.deep_view(),
            available_versions: self.available_versions.deep_view(),
            dependencies: self.dependencies.deep_view(),
            conflicting_packages: self.conflicting_packages.deep_view(),
            suggested_action: self.suggested_action.deep_view(),
        }
    }
}

impl View for ResolverFailure {
    type V = ResolverFailureView;

    open spec fn view(&self) -> ResolverFailureView {
        self.deep_view()
    }
}

impl Clone for ResolverFailure {
    fn clone(&self) -> (r: Self)
        ensures
            r@ == self@,
    {
        ResolverFailure {
            kind: self.kind,
            package: self.package.clone(),
            version_constraint: self.version_constraint.clone(),
            available_versions: self.available_versions.clone(),
            dependencies: self.dependencies.clone(),
            conflicting_packages: self.conflicting_packages.clone(),
            suggested_action: self.suggested_action.clone(),
        }
    }
}

/// Output format for failure reporting.
#[derive(Clone, Copy, Debug, Eq, PartialEq, Structural)]
pub enum OutputFormat {
    Human,
    Toml,
    Json,
}

/// The default suggested action for a failure kind.
pub open spec fn default_action(kind: FailureKind) -> Text {
    match kind {
        FailureKind::Unsatisfiable => "downgrade request or wait for newer release"@,
        FailureKind::Conflict => "remove or change one of the conflicting packages"@,
        FailureKind::PlatformMismatch => "package not available for this platform"@,
        FailureKind::Cycle => "circular dependency; remove or relax one dependency"@,
        FailureKind::NotInLockfile => "add package to lockfile or run without strict mode"@,
        FailureKind::HasDependents => "remove dependents first or use --force"@,
        FailureKind::Other => "check input and try again"@,
    }
}

/// Returns the default suggested action for a failure kind.
pub fn default_suggested_action(kind: FailureKind) -> (r: &'static str)
    ensures
        r@ == default_action(kind),
{
    match kind {
        FailureKind::Unsatisfiable => "downgrade request or wait for newer release",
        FailureKind::Conflict => "remove or change one of the conflicting packages",
        FailureKind::PlatformMismatch => "package not available for this platform",
        FailureKind::Cycle => "circular dependency; remove or relax one dependency",
        FailureKind::NotInLockfile => "add package to lockfile or run without strict mode",
        FailureKind::HasDependents => "remove dependents first or use --force",
        FailureKind::Other => "check input and try again",
    }
}

/// A failure of the given kind without any context.
pub open spec fn bare(kind: FailureKind, package: Option<Text>) -> ResolverFailureView {
    ResolverFailureView {
        kind,
        package,
        version_constraint: None,
        available_versions: None,
        dependencies: None,
        conflicting_packages: None,
        suggested_action: None,
    }
}

/// A dependency that cannot be satisfied.
pub open spec fn unsatisfiable(
    package: Text,
    version_constraint: Option<Text>,
    available_versions: Option<Seq<Text>>,
    dependencies: Option<Seq<Text>>,
) -> ResolverFailureView {
    ResolverFailureView {
        version_constraint,
        available_versions,
        dependencies,
        ..bare(FailureKind::Unsatisfiable, Some(package))
    }
}

/// A package that conflicts with others.
pub open spec fn conflict(
    package: Text,
    conflicting_packages: Option<Seq<Text>>,
) -> ResolverFailureView {
    ResolverFailureView { conflicting_packages, ..bare(FailureKind::Conflict, Some(package)) }
}

/// A package that others depend on.
pub open spec fn has_dependents(package: Text, dependents: Seq<Text>) -> ResolverFailureView {
    ResolverFailureView {
        conflicting_packages: Some(dependents),
        ..bare(FailureKind::HasDependents, Some(package))
    }
}

/// Any other failure, with a detail if there is one.
pub open spec fn other(package: Option<Text>, detail: Option<Text>) -> ResolverFailureView {
    ResolverFailureView {
        dependencies: match detail {
            Some(d) => Some(seq![d]),
            None => None,
        },
        ..bare(FailureKind::Other, package)
    }
}

/// The suggested action: the override unless it is missing or blank, else the default.
pub open spec fn action_of(f: ResolverFailureView) -> Text {
    match f.suggested_action {
        Some(s) if text::trimmed(s).len() > 0 => s,
        _ => default_action(f.kind),
    }
}

fn owned(s: Option<&str>) -> (r: Option<String>)
    ensures
        r.deep_view() == s.deep_view(),
{
    match s {
        Some(s) => Some(s.to_owned()),
        None => None,
    }
}

fn boxed<T: DeepView>(v: Option<Vec<T>>) -> (r: Option<Box<Vec<T>>>)
    ensures
        r.deep_view() == v.deep_view(),
{
    match v {
        Some(v) => Some(Box::new(v)),
        None => None,
    }
}

/// A failure of the given kind about the package, without any context.
fn plain(kind: FailureKind, package: &str) -> (r: ResolverFailure)
    ensures
        r@ == bare(kind, Some(package@)),
{
    ResolverFailure {
        kind,
        package: Some(package.to_owned()),
        version_constraint: None,
        available_versions: None,
        dependencies: None,
        conflicting_packages: None,
        suggested_action: None,
    }
}

impl ResolverFailure {
    /// Effective suggested action: override if set and non-empty, else default for kind.
    /// Empty or whitespace-only override is treated as "use default".
    pub fn suggested_action(&self) -> (r: String)
        ensures
            r@ == action_of(self@),
    {
        match &self.suggested_action {
            Some(s) => {
                if text::is_blank(s.as_str()) {
                    default_suggested_action(self.kind).to_owned()
                } else {
                    s.clone()
                }
            },
            None => default_suggested_action(self.kind).to_owned(),
        }
    }

    /// Build an unsatisfiable failure.
    pub fn unsatisfiable(
        package: &str,
        version_constraint: Option<&str>,
        available_versions: Option<Vec<Version>>,
        dependencies: Option<Vec<String>>,
    ) -> (r: Self)
        ensures
            r@ == unsatisfiable(
                package@,
                version_constraint.deep_view(),
                available_versions.deep_view(),
                dependencies.deep_view(),
            ),
    {
        ResolverFailure {
            kind: FailureKind::Unsatisfiable,
            package: Some(package.to_owned()),
            version_constraint: owned(version_constraint),
            available_versions: boxed(available_versions),
            dependencies: boxed(dependencies),
            conflicting_packages: None,
            suggested_action: None,
        }
    }

    /// Build a conflict failure.
    pub fn conflict(package: &str, conflicting_packages: Option<Vec<String>>) -> (r: Self)
        ensures
            r@ == conflict(package@, conflicting_packages.deep_view()),
    {
        ResolverFailure {
            kind: FailureKind::Conflict,
            package: Some(package.to_owned()),
            version_constraint: None,
            available_versions: None,
            dependencies: None,
            conflicting_packages: boxed(conflicting_packages),
            suggested_action: None,
        }
    }

    /// Build a cycle failure.
    pub fn cycle(package: &str) -> (r: Self)
        ensures
            r@ == bare(FailureKind::Cycle, Some(package@)),
    {
        plain(FailureKind::Cycle, package)
    }

    /// Build a platform mismatch failure.
    pub fn platform_mismatch(package: &str) -> (r: Self)
        ensures
            r@ == bare(FailureKind::PlatformMismatch, Some(package@)),
    {
        plain(FailureKind::PlatformMismatch, package)
    }

    /// Build a not-in-lockfile failure (strict mode).
    pub fn not_in_lockfile(package: &str) -> (r: Self)
        ensures
            r@ == bare(FailureKind::NotInLockfile, Some(package@)),
    {
        plain(FailureKind::NotInLockfile, package)
    }

    /// Build a has-dependents failure (remove refused).
    pub fn has_dependents(package: &str, dependents: Vec<String>) -> (r: Self)
        ensures
            r@ == has_dependents(package@, dependents.deep_view()),
    {
        ResolverFailure {
            kind: FailureKind::HasDependents,
            package: Some(package.to_owned()),
            version_constraint: None,
            available_versions: None,
            dependencies: None,
            conflicting_packages: Some(Box::new(dependents)),
            suggested_action: None,
        }
    }

    /// Build an other/catch-all failure.
    pub fn other(package: Option<&str>, detail: Option<&str>) -> (r: Self)
        ensures
            r@ == other(package.deep_view(), detail.deep_view()),
    {
        let dependencies: Option<Box<Vec<String>>> = match detail {
            Some(d) => {
                let v = vec![d.to_owned()];
                assert(v.deep_view() =~= seq![d@]);
                Some(Box::new(v))
            },
            None => None,
        };
        ResolverFailure {
            kind: FailureKind::Other,
            package: owned(package),
            version_constraint: None,
            available_versions: None,
            dependencies,
            conflicting_packages: None,
            suggested_action: None,
        }
    }

    /// The failure in words.
    pub fn to_string(&self) -> (r: String)
        ensures
            r@ == human_text(self@),
    {
        format_human(self)
    }
}

/// The words for a failure kind.
pub open spec fn kind_text(kind: FailureKind) -> Text {
    match kind {
        FailureKind::Unsatisfiable => "Unsatisfiable"@,
        FailureKind::Conflict => "Conflict"@,
        FailureKind::PlatformMismatch => "Platform mismatch"@,
        FailureKind::Cycle => "Cycle"@,
        FailureKind::NotInLockfile => "Not in lockfile"@,
        FailureKind::HasDependents => "Has dependents"@,
        FailureKind::Other => "Other"@,
    }
}

/// The summary line: the kind and, where a package is known, what is known of it.
pub open spec fn summary_text(f: ResolverFailureView) -> Text {
    match f.package {
        None => kind_text(f.kind),
        Some(package) => kind_text(f.kind) + ": "@ + package + (match f.version_constraint {
            Some(c) => " requires "@ + c,
            None => Seq::empty(),
        }) + (match f.available_versions {
            Some(versions) if versions.len() > 0 => "; available: "@ + text::joined(
                versions,
                ", "@,
            ),
            _ => Seq::empty(),
        }),
    }
}

/// A line that lists the entries under a heading; nothing where there are none.
pub open spec fn list_line(heading: Text, entries: Option<Seq<Text>>) -> Text {
    match entries {
        Some(list) if list.len() > 0 => heading + text::joined(list, ", "@) + "\n"@,
        _ => Seq::empty(),
    }
}

/// The lines between the summary and the suggested action.
pub open spec fn detail_text(f: ResolverFailureView) -> Text {
    list_line("dependencies: "@, f.dependencies) + list_line(
        "conflicting packages: "@,
        f.conflicting_packages,
    )
}

/// The line with the suggested action.
pub open spec fn suggestion_text(f: ResolverFailureView) -> Text {
    "Suggested: "@ + action_of(f) + "\n"@
}

/// The failure in words: summary, details if there are any, suggested action.
pub open spec fn human_text(f: ResolverFailureView) -> Text {
    if detail_text(f).len() == 0 {
        summary_text(f) + "\n"@ + suggestion_text(f) + "\n"@
    } else {
        summary_text(f) + "\n"@ + detail_text(f) + "\n"@ + suggestion_text(f) + "\n"@
    }
}

/// The failure in words with a red summary and a yellow suggested action.
pub open spec fn colored_text(f: ResolverFailureView) -> Text {
    let summary = term::colored(summary_text(f), "31"@);
    let suggestion = term::colored(suggestion_text(f), "33"@);
    if detail_text(f).len() == 0 {
        summary + "\n"@ + suggestion
    } else {
        summary + "\n"@ + detail_text(f) + "\n"@ + suggestion
    }
}

/// Human-readable format: summary line, optional details, suggested action.
/// Format is kept stable; scripts should use JSON for parsing.
pub fn format_human(f: &ResolverFailure) -> (r: String)
    ensures
        r@ == human_text(f@),
{
    let (summary, middle, suggested) = format_human_parts(f);
    if middle.as_str().is_empty() {
        summary.concat("\n").concat(suggested.as_str()).concat("\n")
    } else {
        summary.concat("\n").concat(middle.as_str()).concat("\n").concat(
            suggested.as_str(),
        ).concat("\n")
    }
}

fn version_texts(versions: &Vec<Version>) -> (r: Vec<String>)
    ensures
        r.deep_view() == versions.deep_view(),
{
    let mut out: Vec<String> = Vec::new();
    let mut i: usize = 0;
    while i < versions.len()
        invariant
            i <= versions@.len(),
            out.deep_view() == versions.deep_view().take(i as int),
        decreases versions@.len() - i,
    {
        let ghost before = out.deep_view();
        out.push(versions[i].to_string());
        assert(out.deep_view() =~= before.push(versions.deep_view()[i as int]));
        i += 1;
        assert(out.deep_view() =~= versions.deep_view().take(i as int));
    }
    assert(versions.deep_view().take(i as int) =~= versions.deep_view());
    out
}

fn format_list(heading: &str, entries: &Option<Box<Vec<String>>>) -> (r: String)
    ensures
        r@ == list_line(heading@, entries.deep_view()),
{
    match entries {
        Some(list) => {
            if list.len() > 0 {
                heading.to_owned().concat(text::join(list, ", ").as_str()).concat("\n")
            } else {
                String::new()
            }
        },
        None => String::new(),
    }
}

/// Parts of human format for optional coloring: (summary_line, middle_lines, suggested_line with newline).
fn format_human_parts(f: &ResolverFailure) -> (r: (String, String, String))
    ensures
        r.0@ == summary_text(f@),
        r.1@ == detail_text(f@),
        r.2@ == suggestion_text(f@),
{
    let kind = match f.kind {
        FailureKind::Unsatisfiable => "Unsatisfiable",
        FailureKind::Conflict => "Conflict",
        FailureKind::PlatformMismatch => "Platform mismatch",
        FailureKind::Cycle => "Cycle",
        FailureKind::NotInLockfile => "Not in lockfile",
        FailureKind::HasDependents => "Has dependents",
        FailureKind::Other => "Other",
    };
    let mut summary = kind.to_owned();
    if let Some(package) = &f.package {
        summary = summary.concat(": ").concat(package.as_str());
        let ghost start = summary@;
        if let Some(c) = &f.version_constraint {
            summary = summary.concat(" requires ").concat(c.as_str());
        }
        let ghost middle = summary@;
        assert(middle =~= start + (match f@.version_constraint {
            Some(c) => " requires "@ + c,
            None => Seq::empty(),
        }));
        if let Some(versions) = &f.available_versions {
            if versions.len() > 0 {
                let list = version_texts(versions);
                summary = summary.concat("; available: ").concat(text::join(&list, ", ").as_str());
            }
        }
        assert(summary@ =~= summary_text(f@));
    }
    let details = format_list("dependencies: ", &f.dependencies).concat(
        format_list("conflicting packages: ", &f.conflicting_packages).as_str(),
    );
    let suggested = "Suggested: ".to_owned().concat(f.suggested_action().as_str()).concat("\n");
    (summary, details, suggested)
}

/// Error when serializing or emitting a failure.
#[derive(Clone, Debug, Eq, PartialEq)]
pub enum FailureSerializeError {
    Toml(String),
    Json(String),
    Io(String),
}

/// What a [`FailureSerializeError`] holds.
pub enum FailureSerializeErrorView {
    Toml(Text),
    Json(Text),
    Io(Text),
}

impl DeepView for FailureSerializeError {
    type V = FailureSerializeErrorView;

    open spec fn deep_view(&self) -> FailureSerializeErrorView {
        match self {
            FailureSerializeError::Toml(s) => FailureSerializeErrorView::Toml(s@),
            FailureSerializeError::Json(s) => FailureSerializeErrorView::Json(s@),
            FailureSerializeError::Io(s) => FailureSerializeErrorView::Io(s@),
        }
    }
}

impl FailureSerializeError {
    /// The error in words.
    pub fn to_string(&self) -> (r: String)
        ensures
            r@ == match self.deep_view() {
                FailureSerializeErrorView::Toml(s) => "TOML serialization failed: "@ + s,
                FailureSerializeErrorView::Json(s) => "JSON serialization failed: "@ + s,
                FailureSerializeErrorView::Io(s) => "write failed: "@ + s,
            },
    {
        match self {
            FailureSerializeError::Toml(s) => "TOML serialization failed: ".to_owned().concat(
                s.as_str(),
            ),
            FailureSerializeError::Json(s) => "JSON serialization failed: ".to_owned().concat(
                s.as_str(),
            ),
            FailureSerializeError::Io(s) => "write failed: ".to_owned().concat(s.as_str()),
        }
    }
}

/// The kind of a failure as it is written in documents.
pub open spec fn type_text(kind: FailureKind) -> Text {
    match kind {
        FailureKind::Unsatisfiable => "unsatisfiable"@,
        FailureKind::Conflict => "conflict"@,
        FailureKind::PlatformMismatch => "platform_mismatch"@,
        FailureKind::Cycle => "cycle"@,
        FailureKind::NotInLockfile => "not_in_lockfile"@,
        FailureKind::HasDependents => "has_dependents"@,
        FailureKind::Other => "other"@,
    }
}

/// The field with the key, if there is a text for it.
pub open spec fn text_field(key: Text, value: Option<Text>) -> Seq<(Text, EntryView)> {
    match value {
        Some(s) => seq![(key, EntryView::Text(s))],
        None => Seq::empty(),
    }
}

/// The field with the key, if there are texts for it.
pub open spec fn texts_field(key: Text, value: Option<Seq<Text>>) -> Seq<(Text, EntryView)> {
    match value {
        Some(list) => seq![(key, EntryView::Texts(list))],
        None => Seq::empty(),
    }
}

/// The fields of a failure in documents: the kind as `type`, and the others that are set.
pub open spec fn failure_fields(f: ResolverFailureView) -> Seq<(Text, EntryView)> {
    seq![("type"@, EntryView::Text(type_text(f.kind)))] + text_field("package"@, f.package)
        + text_field("version_constraint"@, f.version_constraint) + texts_field(
        "available_versions"@,
        f.available_versions,
    ) + texts_field("dependencies"@, f.dependencies) + texts_field(
        "conflicting_packages"@,
        f.conflicting_packages,
    ) + text_field("suggested_action"@, f.suggested_action)
}

/// The failure as a JSON document.
pub open spec fn failure_tree(f: ResolverFailureView) -> Tree {
    documents::record_tree(failure_fields(f))
}

/// The failure as a TOML document: a single `failure` section of the same structure.
pub open spec fn failure_section(f: ResolverFailureView) -> Tree {
    documents::section_tree("failure"@, failure_fields(f))
}

fn push_text(fields: &mut Vec<(String, Entry)>, key: &str, value: &Option<String>)
    ensures
        final(fields).deep_view() == old(fields).deep_view() + text_field(
            key@,
            value.deep_view(),
        ),
{
    let ghost before = fields.deep_view();
    if let Some(s) = value {
        fields.push((key.to_owned(), Entry::Text(s.clone())));
    }
    assert(fields.deep_view() =~= before + text_field(key@, value.deep_view()));
}

fn push_texts(fields: &mut Vec<(String, Entry)>, key: &str, value: Option<Vec<String>>)
    ensures
        final(fields).deep_view() == old(fields).deep_view() + texts_field(
            key@,
            value.deep_view(),
        ),
{
    let ghost before = fields.deep_view();
    let ghost given = value.deep_view();
    if let Some(list) = value {
        fields.push((key.to_owned(), Entry::Texts(list)));
    }
    assert(fields.deep_view() =~= before + texts_field(key@, given));
}

fn fields_of(f: &ResolverFailure) -> (r: Vec<(String, Entry)>)
    ensures
        r.deep_view() == failure_fields(f@),
{
    let kind = match f.kind {
        FailureKind::Unsatisfiable => "unsatisfiable",
        FailureKind::Conflict => "conflict",
        FailureKind::PlatformMismatch => "platform_mismatch",
        FailureKind::Cycle => "cycle",
        FailureKind::NotInLockfile => "not_in_lockfile",
        FailureKind::HasDependents => "has_dependents",
        FailureKind::Other => "other",
    };
    let mut fields: Vec<(String, Entry)> = Vec::new();
    fields.push(("type".to_owned(), Entry::Text(kind.to_owned())));
    assert(fields.deep_view() =~= seq![("type"@, EntryView::Text(type_text(f@.kind)))]);
    push_text(&mut fields, "package", &f.package);
    push_text(&mut fields, "version_constraint", &f.version_constraint);
    let versions = match &f.available_versions {
        Some(list) => Some(version_texts(list)),
        None => None,
    };
    push_texts(&mut fields, "available_versions", versions);
    push_texts(&mut fields, "dependencies", unboxed(&f.dependencies));
    push_texts(&mut fields, "conflicting_packages", unboxed(&f.conflicting_packages));
    push_text(&mut fields, "suggested_action", &f.suggested_action);
    fields
}

fn unboxed(v: &Option<Box<Vec<String>>>) -> (r: Option<Vec<String>>)
    ensures
        r.deep_view() == v.deep_view(),
{
    match v {
        Some(list) => Some((**list).clone()),
        None => None,
    }
}

/// Serialize failure to TOML string (single `[failure]` section).
pub fn to_toml(f: &ResolverFailure) -> (r: Result<String, FailureSerializeError>)
    ensures
        views::result_view(r) == in_toml(f@),
{
    match documents::record_to_toml("failure", &fields_of(f)) {
        Ok(s) => Ok(s),
        Err(e) => Err(FailureSerializeError::Toml(e)),
    }
}

/// Serialize failure to JSON string (one object, same structure as TOML).
pub fn to_json(f: &ResolverFailure) -> (r: Result<String, FailureSerializeError>)
    ensures
        views::result_view(r) == in_json(f@),
{
    match documents::record_to_json(&fields_of(f)) {
        Ok(s) => Ok(s),
        Err(e) => Err(FailureSerializeError::Json(e)),
    }
}

/// The failure in TOML.
pub open spec fn in_toml(f: ResolverFailureView) -> Result<Text, FailureSerializeErrorView> {
    match documents::toml_text(failure_section(f)) {
        Ok(s) => Ok(s),
        Err(e) => Err(FailureSerializeErrorView::Toml(e)),
    }
}

/// The failure in JSON.
pub open spec fn in_json(f: ResolverFailureView) -> Result<Text, FailureSerializeErrorView> {
    match documents::json_text(failure_tree(f)) {
        Ok(s) => Ok(s),
        Err(e) => Err(FailureSerializeErrorView::Json(e)),
    }
}

/// The failure as it is reported: with the suggested action spelled out.
pub open spec fn as_reported(f: ResolverFailureView) -> ResolverFailureView {
    ResolverFailureView { suggested_action: Some(action_of(f)), ..f }
}

/// The failure as it is reported: with the suggested action spelled out.
pub fn reported(f: &ResolverFailure) -> (r: ResolverFailure)
    ensures
        r@ == as_reported(f@),
{
    let mut r = f.clone();
    r.suggested_action = Some(f.suggested_action());
    r
}

/// What a failure reads like in the given format.
pub open spec fn emitted(f: ResolverFailureView, format: OutputFormat, use_color: bool) -> Result<
    Text,
    FailureSerializeErrorView,
> {
    match format {
        OutputFormat::Human => Ok(
            if use_color {
                colored_text(f)
            } else {
                human_text(f)
            },
        ),
        OutputFormat::Toml => in_toml(as_reported(f)),
        OutputFormat::Json => in_json(as_reported(f)),
    }
}

/// What a failure reads like in the requested format, with the suggested action in each.
/// When format is Human and use_color is true, summary line is red and "Suggested:" line is yellow.
pub fn emit_failure(f: &ResolverFailure, format: OutputFormat, use_color: bool) -> (r: Result<
    String,
    FailureSerializeError,
>)
    ensures
        views::result_view(r) == emitted(f@, format, use_color),
{
    match format {
        OutputFormat::Human => {
            if use_color {
                let (summary, middle, suggested) = format_human_parts(f);
                let summary = term::red(summary.as_str());
                let suggested = term::yellow(suggested.as_str());
                if middle.as_str().is_empty() {
                    Ok(summary.concat("\n").concat(suggested.as_str()))
                } else {
                    Ok(
                        summary.concat("\n").concat(middle.as_str()).concat("\n").concat(
                            suggested.as_str(),
                        ),
                    )
                }
            } else {
                Ok(format_human(f))
            }
        },
        OutputFormat::Toml => to_toml(&reported(f)),
        OutputFormat::Json => to_json(&reported(f)),
    }
}

/// The keys of the fields, in their order.
spec fn field_keys() -> Seq<Text> {
    seq![
        "type"@,
        "package"@,
        "version_constraint"@,
        "available_versions"@,
        "dependencies"@,
        "conflicting_packages"@,
        "suggested_action"@,
    ]
}

/// Whether the keys of the fields are different, and among the first `n`.
spec fn apart(fields: Seq<(Text, EntryView)>, n: int) -> bool {
    &&& forall|i: int, j: int|
        #![trigger fields[i], fields[j]]
        0 <= i < j < fields.len() ==> fields[i].0 != fields[j].0
    &&& forall|i: int|
        0 <= i < fields.len() ==> field_keys().take(n).contains((#[trigger] fields[i]).0)
}

proof fn lemma_keys_differ()
    ensures
        forall|i: int, j: int|
            #![trigger field_keys()[i], field_keys()[j]]
            0 <= i < j < 7 ==> field_keys()[i] != field_keys()[j],
{
    reveal_strlit("type");
    reveal_strlit("package");
    reveal_strlit("version_constraint");
    reveal_strlit("available_versions");
    reveal_strlit("dependencies");
    reveal_strlit("conflicting_packages");
    reveal_strlit("suggested_action");
    let k = field_keys();
    assert(k[0].len() == 4 && k[1].len() == 7 && k[2].len() == 18 && k[3].len() == 18);
    assert(k[4].len() == 12 && k[5].len() == 20 && k[6].len() == 16);
    assert(k[2][0] == 'v' && k[3][0] == 'a');
    assert forall|i: int, j: int|
        #![trigger k[i], k[j]]
        0 <= i < j < 7 implies k[i] != k[j] by {
        assert(i == 0 || i == 1 || i == 2 || i == 3 || i == 4 || i == 5);
        assert(j == 1 || j == 2 || j == 3 || j == 4 || j == 5 || j == 6);
    }
}

proof fn lemma_one_more(fields: Seq<(Text, EntryView)>, more: Seq<(Text, EntryView)>, n: int)
    requires
        0 <= n < 7,
        apart(fields, n),
        more.len() <= 1,
        more.len() == 1 ==> more[0].0 == field_keys()[n],
    ensures
        apart(fields + more, n + 1),
{
    let all = fields + more;
    let keys = field_keys();
    lemma_keys_differ();
    assert forall|i: int| 0 <= i < all.len() implies keys.take(n + 1).contains(
        (#[trigger] all[i]).0,
    ) by {
        if i < fields.len() {
            assert(all[i] == fields[i]);
            let k = choose|k: int| 0 <= k < n && keys.take(n)[k] == fields[i].0;
            assert(keys.take(n + 1)[k] == all[i].0);
        } else {
            assert(keys.take(n + 1)[n] == all[i].0);
        }
    }
    assert forall|i: int, j: int|
        #![trigger all[i], all[j]]
        0 <= i < j < all.len() implies all[i].0 != all[j].0 by {
        assert(all[i] == fields[i]);
        if j < fields.len() {
            assert(all[j] == fields[j]);
        } else {
            let k = choose|k: int| 0 <= k < n && keys.take(n)[k] == fields[i].0;
            assert(keys[k] == fields[i].0 && keys[k] != keys[n]);
        }
    }
}

/// A document holds the fields of the failure in their order: the kind as `type`, the package, the
/// constraint, the versions, the dependencies, the conflicts and the suggested action.
pub proof fn lemma_document_fields(f: ResolverFailureView)
    ensures
        failure_tree(f) == Tree::Table(
            failure_fields(f).map_values(
                |e: (Text, EntryView)| (e.0, documents::entry_tree(e.1)),
            ),
        ),
        failure_section(f) == Tree::Table(seq![("failure"@, failure_tree(f))]),
{
    let fields = failure_fields(f);
    let none = Seq::<(Text, EntryView)>::empty();
    let one = seq![("type"@, EntryView::Text(type_text(f.kind)))];
    let two = one + text_field("package"@, f.package);
    let three = two + text_field("version_constraint"@, f.version_constraint);
    let four = three + texts_field("available_versions"@, f.available_versions);
    let five = four + texts_field("dependencies"@, f.dependencies);
    let six = five + texts_field("conflicting_packages"@, f.conflicting_packages);
    lemma_one_more(none, one, 0);
    assert(none + one =~= one);
    lemma_one_more(one, text_field("package"@, f.package), 1);
    lemma_one_more(two, text_field("version_constraint"@, f.version_constraint), 2);
    lemma_one_more(three, texts_field("available_versions"@, f.available_versions), 3);
    lemma_one_more(four, texts_field("dependencies"@, f.dependencies), 4);
    lemma_one_more(five, texts_field("conflicting_packages"@, f.conflicting_packages), 5);
    lemma_one_more(six, text_field("suggested_action"@, f.suggested_action), 6);
    documents::lemma_record_entries(fields);
}

/// Every machine-readable report holds the suggested action: the document that is encoded has it
/// last, under `suggested_action`, and first the kind under `type`.
pub proof fn lemma_document_suggests_action(f: ResolverFailureView)
    ensures
        failure_tree(as_reported(f)) matches Tree::Table(t) && t.len() >= 2 && t.last() == (
            "suggested_action"@,
            Tree::Text(action_of(f)),
        ) && t[0] == ("type"@, Tree::Text(type_text(f.kind))),
        failure_section(as_reported(f)) == Tree::Table(
            seq![("failure"@, failure_tree(as_reported(f)))],
        ),
{
    let g = as_reported(f);
    let fields = failure_fields(g);
    lemma_document_fields(g);
    assert(fields.last() == ("suggested_action"@, EntryView::Text(action_of(f))));
    assert(fields[0] == ("type"@, EntryView::Text(type_text(f.kind))));
}

/// Every report for people holds the suggested action.
pub proof fn lemma_report_suggests_action(f: ResolverFailureView)
    ensures
        text::contains_text(human_text(f), suggestion_text(f)),
        text::contains_text(colored_text(f), suggestion_text(f)),
        text::contains_text(human_text(f), action_of(f)),
        text::contains_text(colored_text(f), action_of(f)),
{
    let s = suggestion_text(f);
    let before = if detail_text(f).len() == 0 {
        summary_text(f) + "\n"@
    } else {
        summary_text(f) + "\n"@ + detail_text(f) + "\n"@
    };
    assert(human_text(f) == before + s + "\n"@);
    lemma_holds(before, s, "\n"@);
    lemma_holds_within(before, "Suggested: "@, action_of(f), "\n"@, "\n"@);
    let summary = term::colored(summary_text(f), "31"@);
    let above = if detail_text(f).len() == 0 {
        summary + "\n"@
    } else {
        summary + "\n"@ + detail_text(f) + "\n"@
    };
    let start = above + term::color_code("33"@);
    let end = term::color_code("39"@);
    assert(colored_text(f) == start + s + end) by {
        assert(colored_text(f) == above + term::colored(s, "33"@));
        assert(above + (term::color_code("33"@) + s + end) =~= start + s + end);
    }
    lemma_holds(start, s, end);
    lemma_holds_within(start, "Suggested: "@, action_of(f), "\n"@, end);
}

/// A text holds each part of its parts.
proof fn lemma_holds_within(before: Text, head: Text, part: Text, tail: Text, after: Text)
    ensures
        text::contains_text(before + (head + part + tail) + after, part),
{
    lemma_holds(before + head, part, tail + after);
    assert(before + (head + part + tail) + after =~= (before + head) + part + (tail + after));
}

/// A text holds each of its parts.
proof fn lemma_holds(before: Text, part: Text, after: Text)
    ensures
        text::contains_text(before + part + after, part),
{
    let s = before + part + after;
    let i = before.len() as int;
    assert(s.subrange(i, i + part.len()) =~= part);
    assert(text::occurs_at(s, part, i));
}

} // verus!
