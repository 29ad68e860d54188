//! Manifest schema, parsing, and validation.

use vstd::prelude::*;
use vstd::string::*;

use crate::dep_constraint;
use crate::dep_constraint::{
    DepConstraint, DepConstraintView, InvalidDepConstraint, InvalidDepConstraintView,
};
use crate::package_name;
use crate::package_name::{InvalidPackageName, PackageName};
use crate::source;
use crate::source::{
    InvalidSourceHash, InvalidSourceHashView, Source, SourceHash, SourceView,
};
use crate::text;
use crate::text::Text;
use crate::version;
use crate::version::Version;
use crate::views;

verus! {

/// Root document: top-level key `[sic]` maps to manifest.
#[derive(Debug)]
pub struct ManifestRoot {
    pub sic: RawManifest,
}

/// Raw manifest as read from TOML (all string/primitive types).
#[derive(Debug)]
pub struct RawManifest {
    pub name: String,
    pub version: String,
    pub revision: Option<u32>,
    pub source: RawSource,
    pub depends: Vec<String>,
    pub depends_any: Vec<Vec<String>>,
    pub recommends: Vec<String>,
    pub conflicts: Vec<String>,
    pub provides: Vec<String>,
    pub files: Vec<String>,
    pub commands: Vec<String>,
}

/// Raw source as read from TOML.
#[derive(Debug)]
pub struct RawSource {
    pub kind: String,
    pub url: String,
    pub hash: String,
}

/// What a [`RawManifest`] holds.
pub struct RawManifestView {
    pub name: Text,
    pub version: Text,
    pub revision: Option<u32>,
    pub source: RawSourceView,
    pub depends: Seq<Text>,
    pub depends_any: Seq<Seq<Text>>,
    pub recommends: Seq<Text>,
    pub conflicts: Seq<Text>,
    pub provides: Seq<Text>,
    pub files: Seq<Text>,
    pub commands: Seq<Text>,
}

/// What a [`RawSource`] holds.
pub struct RawSourceView {
    pub kind: Text,
    pub url: Text,
    pub hash: Text,
}

impl DeepView for RawSource {
    type V = RawSourceView;

    open spec fn deep_view(&self) -> RawSourceView {
        RawSourceView { kind: self.kind@, url: self.url@, hash: self.hash@ }
    }
}

impl DeepView for RawManifest {
    type V = RawManifestView;

    open spec fn deep_view(&self) -> RawManifestView {
        RawManifestView {
            name: self.name@,
            version: self.version@,
            revision: self.revision,
            source: self.source.deep_view(),
            depends: self.depends.deep_view(),
            depends_any: self.depends_any.deep_view(),
            recommends: self.recommends.deep_view(),
            conflicts: self.conflicts.deep_view(),
            provides: self.provides.deep_view(),
            files: self.files.deep_view(),
            commands: self.commands.deep_view(),
        }
    }
}

impl DeepView for ManifestRoot {
    type V = RawManifestView;

    open spec fn deep_view(&self) -> RawManifestView {
        self.sic.deep_view()
    }
}

/// Validated in-memory manifest.
#[derive(Debug, Eq, PartialEq)]
pub struct Manifest {
    pub name: PackageName,
    pub version: Version,
    pub revision: u32,
    pub source: Source,
    pub depends: Vec<DepConstraint>,
    pub depends_any: Vec<Vec<DepConstraint>>,
    pub recommends: Vec<DepConstraint>,
    pub conflicts: Vec<PackageName>,
    pub provides: Vec<String>,
    pub files: Vec<String>,
    pub commands: Vec<String>,
}

/// What a [`Manifest`] holds.
pub struct ManifestView {
    pub name: Text,
    pub version: Text,
    pub revision: u32,
    pub source: SourceView,
    pub depends: Seq<DepConstraintView>,
    pub depends_any: Seq<Seq<DepConstraintView>>,
    pub recommends: Seq<DepConstraintView>,
    pub conflicts: Seq<Text>,
    pub provides: Seq<Text>,
    pub files: Seq<Text>,
    pub commands: Seq<Text>,
}

impl DeepView for Manifest {
    type V = ManifestView;

    open spec fn deep_view(&self) -> ManifestView {
        ManifestView {
            name: self.name@,
            version: self.version@,
            revision: self.revision,
            source: self.source@,
            depends: self.depends.deep_view(),
            depends_any: self.depends_any.deep_view(),
            recommends: self.recommends.deep_view(),
            conflicts: self.conflicts.deep_view(),
            provides: self.provides.deep_view(),
            files: self.files.deep_view(),
            commands: self.commands.deep_view(),
        }
    }
}

impl View for Manifest {
    type V = ManifestView;

    open spec fn view(&self) -> ManifestView {
        self.deep_view()
    }
}

impl Clone for Manifest {
    fn clone(&self) -> (r: Self)
        ensures
            r@ == self@,
    {
        Manifest {
            name: self.name.clone(),
            version: self.version.clone(),
            revision: self.revision,
            source: self.source.clone(),
            depends: self.depends.clone(),
            depends_any: self.depends_any.clone(),
            recommends: self.recommends.clone(),
            conflicts: self.conflicts.clone(),
            provides: self.provides.clone(),
            files: self.files.clone(),
            commands: self.commands.clone(),
        }
    }
}

/// Error from manifest parsing (TOML or conversion).
#[derive(Clone, Debug, Eq, PartialEq)]
pub enum ParseError {
    /// TOML parse/deserialize error (message only for determinism).
    Toml(String),
    /// Invalid package name.
    InvalidName(InvalidPackageName),
    /// Invalid version (e.g. empty).
    InvalidVersion,
    /// Invalid source hash.
    InvalidHash(InvalidSourceHash),
    /// Invalid dependency constraint.
    InvalidDepConstraint(InvalidDepConstraint),
}

/// What a [`ParseError`] holds.
pub enum ParseErrorView {
    Toml(Text),
    InvalidName(Text),
    InvalidVersion,
    InvalidHash(InvalidSourceHashView),
    InvalidDepConstraint(InvalidDepConstraintView),
}

impl DeepView for ParseError {
    type V = ParseErrorView;

    open spec fn deep_view(&self) -> ParseErrorView {
        match self {
            ParseError::Toml(message) => ParseErrorView::Toml(message@),
            ParseError::InvalidName(e) => ParseErrorView::InvalidName(e@),
            ParseError::InvalidVersion => ParseErrorView::InvalidVersion,
            ParseError::InvalidHash(e) => ParseErrorView::InvalidHash(e@),
            ParseError::InvalidDepConstraint(e) => ParseErrorView::InvalidDepConstraint(e@),
        }
    }
}

impl View for ParseError {
    type V = ParseErrorView;

    open spec fn view(&self) -> ParseErrorView {
        self.deep_view()
    }
}

/// The words for a [`ParseError`].
pub open spec fn parse_error_text(e: ParseErrorView) -> Text {
    match e {
        ParseErrorView::Toml(message) => "manifest parse error: "@ + message,
        ParseErrorView::InvalidName(value) => "invalid package name: "@ + text::quoted(value),
        ParseErrorView::InvalidVersion => "invalid or empty version"@,
        ParseErrorView::InvalidHash(e) => source::invalid_text(e),
        ParseErrorView::InvalidDepConstraint(e) => dep_constraint::invalid_text(e),
    }
}

impl ParseError {
    /// The error in words.
    pub fn to_string(&self) -> (r: String)
        ensures
            r@ == parse_error_text(self@),
    {
        match self {
            ParseError::Toml(message) => "manifest parse error: ".to_owned().concat(
                message.as_str(),
            ),
            ParseError::InvalidName(e) => e.to_string(),
            ParseError::InvalidVersion => "invalid or empty version".to_owned(),
            ParseError::InvalidHash(e) => e.to_string(),
            ParseError::InvalidDepConstraint(e) => e.to_string(),
        }
    }
}

/// Error from manifest validation (paths, source URL, etc.).
#[derive(Clone, Debug, Eq, PartialEq)]
pub enum ValidationError {
    /// Invalid source URL.
    InvalidSourceUrl { value: String, reason: String },
    /// Absolute path or path traversal in files or commands.
    InvalidPath { value: String, reason: String },
}

/// What a [`ValidationError`] holds.
pub enum ValidationErrorView {
    InvalidSourceUrl { value: Text, reason: Text },
    InvalidPath { value: Text, reason: Text },
}

impl DeepView for ValidationError {
    type V = ValidationErrorView;

    open spec fn deep_view(&self) -> ValidationErrorView {
        match self {
            ValidationError::InvalidSourceUrl { value, reason } =>
                ValidationErrorView::InvalidSourceUrl { value: value@, reason: reason@ },
            ValidationError::InvalidPath { value, reason } => ValidationErrorView::InvalidPath {
                value: value@,
                reason: reason@,
            },
        }
    }
}

impl View for ValidationError {
    type V = ValidationErrorView;

    open spec fn view(&self) -> ValidationErrorView {
        self.deep_view()
    }
}

/// The words for a [`ValidationError`].
pub open spec fn validation_error_text(e: ValidationErrorView) -> Text {
    match e {
        ValidationErrorView::InvalidSourceUrl { value, reason } => "invalid source URL "@
            + text::quoted(value) + ": "@ + reason,
        ValidationErrorView::InvalidPath { value, reason } => "invalid path "@ + text::quoted(value)
            + ": "@ + reason,
    }
}

impl ValidationError {
    /// The error in words.
    pub fn to_string(&self) -> (r: String)
        ensures
            r@ == validation_error_text(self@),
    {
        match self {
            ValidationError::InvalidSourceUrl { value, reason } =>
                "invalid source URL ".to_owned().concat(
                text::to_quoted(value.as_str()).as_str(),
            ).concat(": ").concat(reason.as_str()),
            ValidationError::InvalidPath { value, reason } => "invalid path ".to_owned().concat(
                text::to_quoted(value.as_str()).as_str(),
            ).concat(": ").concat(reason.as_str()),
        }
    }
}

/// Combined parse or validation error.
#[derive(Clone, Debug, Eq, PartialEq)]
pub enum ParseOrValidationError {
    Parse(ParseError),
    Validation(ValidationError),
}

/// What a [`ParseOrValidationError`] holds.
pub enum ParseOrValidationErrorView {
    Parse(ParseErrorView),
    Validation(ValidationErrorView),
}

impl DeepView for ParseOrValidationError {
    type V = ParseOrValidationErrorView;

    open spec fn deep_view(&self) -> ParseOrValidationErrorView {
        match self {
            ParseOrValidationError::Parse(e) => ParseOrValidationErrorView::Parse(e@),
            ParseOrValidationError::Validation(e) => ParseOrValidationErrorView::Validation(e@),
        }
    }
}

impl View for ParseOrValidationError {
    type V = ParseOrValidationErrorView;

    open spec fn view(&self) -> ParseOrValidationErrorView {
        self.deep_view()
    }
}

impl ParseOrValidationError {
    /// The error in words.
    pub fn to_string(&self) -> (r: String)
        ensures
            r@ == match self@ {
                ParseOrValidationErrorView::Parse(e) => parse_error_text(e),
                ParseOrValidationErrorView::Validation(e) => validation_error_text(e),
            },
    {
        match self {
            ParseOrValidationError::Parse(e) => e.to_string(),
            ParseOrValidationError::Validation(e) => e.to_string(),
        }
    }
}

/// The constraints that the texts write, or what is wrong with the first bad one.
pub open spec fn parsed_constraints(list: Seq<Text>) -> Result<
    Seq<DepConstraintView>,
    InvalidDepConstraintView,
>
    decreases list.len(),
{
    if list.len() == 0 {
        Ok(Seq::empty())
    } else {
        match parsed_constraints(list.drop_last()) {
            Err(e) => Err(e),
            Ok(front) => match dep_constraint::parsed(list.last()) {
                Err(e) => Err(e),
                Ok(c) => Ok(front.push(c)),
            },
        }
    }
}

/// The groups of constraints that the texts write, or what is wrong with the first bad one.
pub open spec fn parsed_groups(groups: Seq<Seq<Text>>) -> Result<
    Seq<Seq<DepConstraintView>>,
    InvalidDepConstraintView,
>
    decreases groups.len(),
{
    if groups.len() == 0 {
        Ok(Seq::empty())
    } else {
        match parsed_groups(groups.drop_last()) {
            Err(e) => Err(e),
            Ok(front) => match parsed_constraints(groups.last()) {
                Err(e) => Err(e),
                Ok(group) => Ok(front.push(group)),
            },
        }
    }
}

/// The texts as package names, or the first that is none.
pub open spec fn parsed_names(list: Seq<Text>) -> Result<Seq<Text>, Text>
    decreases list.len(),
{
    if list.len() == 0 {
        Ok(Seq::empty())
    } else {
        match parsed_names(list.drop_last()) {
            Err(e) => Err(e),
            Ok(front) => if package_name::valid_name(list.last()) {
                Ok(front.push(list.last()))
            } else {
                Err(list.last())
            },
        }
    }
}

/// The manifest that the raw one describes, or what is wrong with its first bad field.
pub open spec fn converted(raw: RawManifestView) -> Result<ManifestView, ParseErrorView> {
    if !package_name::valid_name(raw.name) {
        Err(ParseErrorView::InvalidName(raw.name))
    } else if !version::valid_version(raw.version) {
        Err(ParseErrorView::InvalidVersion)
    } else {
        match source::parsed(raw.source.hash) {
            Err(e) => Err(ParseErrorView::InvalidHash(e)),
            Ok(hash) => match parsed_constraints(raw.depends) {
                Err(e) => Err(ParseErrorView::InvalidDepConstraint(e)),
                Ok(depends) => match parsed_groups(raw.depends_any) {
                    Err(e) => Err(ParseErrorView::InvalidDepConstraint(e)),
                    Ok(depends_any) => match parsed_constraints(raw.recommends) {
                        Err(e) => Err(ParseErrorView::InvalidDepConstraint(e)),
                        Ok(recommended) => match parsed_names(raw.conflicts) {
                            Err(e) => Err(ParseErrorView::InvalidName(e)),
                            Ok(conflicts) => Ok(
                                ManifestView {
                                    name: raw.name,
                                    version: raw.version,
                                    revision: match raw.revision {
                                        Some(n) => n,
                                        None => 0,
                                    },
                                    source: SourceView {
                                        kind: raw.source.kind,
                                        url: raw.source.url,
                                        hash,
                                    },
                                    depends,
                                    depends_any,
                                    recommends: recommended,
                                    conflicts,
                                    provides: raw.provides,
                                    files: raw.files,
                                    commands: raw.commands,
                                },
                            ),
                        },
                    },
                },
            },
        }
    }
}

/// The manifest that a decoded document describes; a document that could not be decoded is
/// reported with the decoder's message.
pub open spec fn parsed(decoded: Result<RawManifestView, Text>) -> Result<
    ManifestView,
    ParseErrorView,
> {
    match decoded {
        Err(message) => Err(ParseErrorView::Toml(message)),
        Ok(raw) => converted(raw),
    }
}

/// What is wrong with a path of an installed file or command, if anything.
pub open spec fn path_problem(entry: Text) -> Option<ValidationErrorView> {
    let path = text::trimmed(entry);
    if path.len() == 0 {
        None
    } else if path[0] == '/' {
        Some(
            ValidationErrorView::InvalidPath {
                value: path,
                reason: "absolute path not allowed"@,
            },
        )
    } else if text::split(path, '/').contains(".."@) {
        Some(
            ValidationErrorView::InvalidPath {
                value: path,
                reason: "path traversal (..) not allowed"@,
            },
        )
    } else {
        None
    }
}

/// What is wrong with the first bad path, if there is one.
pub open spec fn paths_problem(entries: Seq<Text>) -> Option<ValidationErrorView>
    decreases entries.len(),
{
    if entries.len() == 0 {
        None
    } else {
        match paths_problem(entries.drop_last()) {
            Some(e) => Some(e),
            None => path_problem(entries.last()),
        }
    }
}

/// What is wrong with the source URL, if anything.
pub open spec fn url_problem(url: Text) -> Option<ValidationErrorView> {
    let u = text::trimmed(url);
    if u.len() == 0 {
        Some(
            ValidationErrorView::InvalidSourceUrl {
                value: url,
                reason: "source URL must be non-empty"@,
            },
        )
    } else if !"http://"@.is_prefix_of(u) && !"https://"@.is_prefix_of(u)
        && !"file://"@.is_prefix_of(u) {
        Some(
            ValidationErrorView::InvalidSourceUrl {
                value: url,
                reason: "source URL must start with http://, https://, or file://"@,
            },
        )
    } else {
        None
    }
}

/// What is wrong with the manifest: its source URL, else the first bad path of its files and
/// then of its commands.
pub open spec fn problem(m: ManifestView) -> Option<ValidationErrorView> {
    match url_problem(m.source.url) {
        Some(e) => Some(e),
        None => match paths_problem(m.files) {
            Some(e) => Some(e),
            None => paths_problem(m.commands),
        },
    }
}

/// The valid manifest that a decoded document describes.
pub open spec fn parsed_and_validated(decoded: Result<RawManifestView, Text>) -> Result<
    ManifestView,
    ParseOrValidationErrorView,
> {
    match parsed(decoded) {
        Err(e) => Err(ParseOrValidationErrorView::Parse(e)),
        Ok(m) => match problem(m) {
            Some(e) => Err(ParseOrValidationErrorView::Validation(e)),
            None => Ok(m),
        },
    }
}

fn parse_constraints(list: &Vec<String>) -> (r: Result<Vec<DepConstraint>, InvalidDepConstraint>)
    ensures
        views::result_view(r) == parsed_constraints(list.deep_view()),
{
    let ghost all = list.deep_view();
    let mut out: Vec<DepConstraint> = Vec::new();
    let mut i: usize = 0;
    assert(out.deep_view() =~= Seq::empty());
    while i < list.len()
        invariant
            i <= list@.len(),
            all == list.deep_view(),
            parsed_constraints(all.take(i as int)) == Ok::<_, InvalidDepConstraintView>(
                out.deep_view(),
            ),
        decreases list@.len() - i,
    {
        let ghost before = out.deep_view();
        assert(all.take(i + 1).drop_last() == all.take(i as int));
        assert(list@[i as int]@ == all[i as int]);
        match DepConstraint::parse(list[i].as_str()) {
            Ok(c) => {
                let ghost cv = c@;
                out.push(c);
                assert(out.deep_view() =~= before.push(cv));
            },
            Err(e) => {
                proof {
                    lemma_constraints_error(all, i + 1);
                }
                return Err(e);
            },
        }
        i += 1;
    }
    assert(all.take(all.len() as int) == all);
    Ok(out)
}

/// A bad constraint makes every list that continues it bad in the same way.
proof fn lemma_constraints_error(list: Seq<Text>, n: int)
    requires
        0 <= n <= list.len(),
        parsed_constraints(list.take(n)) is Err,
    ensures
        parsed_constraints(list) == parsed_constraints(list.take(n)),
    decreases list.len(),
{
    if n == list.len() {
        assert(list.take(n) == list);
    } else {
        assert(list.drop_last().take(n) == list.take(n));
        lemma_constraints_error(list.drop_last(), n);
    }
}

fn parse_groups(groups: &Vec<Vec<String>>) -> (r: Result<
    Vec<Vec<DepConstraint>>,
    InvalidDepConstraint,
>)
    ensures
        views::result_view(r) == parsed_groups(groups.deep_view()),
{
    let ghost all = groups.deep_view();
    let mut out: Vec<Vec<DepConstraint>> = Vec::new();
    let mut i: usize = 0;
    assert(out.deep_view() =~= Seq::empty());
    while i < groups.len()
        invariant
            i <= groups@.len(),
            all == groups.deep_view(),
            parsed_groups(all.take(i as int)) == Ok::<_, InvalidDepConstraintView>(
                out.deep_view(),
            ),
        decreases groups@.len() - i,
    {
        let ghost before = out.deep_view();
        assert(all.take(i + 1).drop_last() == all.take(i as int));
        assert(groups@[i as int].deep_view() == all[i as int]);
        match parse_constraints(&groups[i]) {
            Ok(group) => {
                let ghost gv = group.deep_view();
                out.push(group);
                assert(out.deep_view() =~= before.push(gv));
            },
            Err(e) => {
                proof {
                    lemma_groups_error(all, i + 1);
                }
                return Err(e);
            },
        }
        i += 1;
    }
    assert(all.take(all.len() as int) == all);
    Ok(out)
}

/// A bad group makes every list that continues it bad in the same way.
proof fn lemma_groups_error(groups: Seq<Seq<Text>>, n: int)
    requires
        0 <= n <= groups.len(),
        parsed_groups(groups.take(n)) is Err,
    ensures
        parsed_groups(groups) == parsed_groups(groups.take(n)),
    decreases groups.len(),
{
    if n == groups.len() {
        assert(groups.take(n) == groups);
    } else {
        assert(groups.drop_last().take(n) == groups.take(n));
        lemma_groups_error(groups.drop_last(), n);
    }
}

fn parse_names(list: &Vec<String>) -> (r: Result<Vec<PackageName>, InvalidPackageName>)
    ensures
        views::result_view(r) == parsed_names(list.deep_view()),
{
    let ghost all = list.deep_view();
    let mut out: Vec<PackageName> = Vec::new();
    let mut i: usize = 0;
    assert(out.deep_view() =~= Seq::empty());
    while i < list.len()
        invariant
            i <= list@.len(),
            all == list.deep_view(),
            parsed_names(all.take(i as int)) == Ok::<_, Text>(out.deep_view()),
        decreases list@.len() - i,
    {
        let ghost before = out.deep_view();
        assert(all.take(i + 1).drop_last() == all.take(i as int));
        assert(list@[i as int]@ == all[i as int]);
        match PackageName::new(list[i].as_str()) {
            Ok(name) => {
                let ghost nv = name@;
                out.push(name);
                assert(out.deep_view() =~= before.push(nv));
            },
            Err(e) => {
                proof {
                    lemma_names_error(all, i + 1);
                }
                return Err(e);
            },
        }
        i += 1;
    }
    assert(all.take(all.len() as int) == all);
    Ok(out)
}

/// A bad name makes every list that continues it bad in the same way.
proof fn lemma_names_error(list: Seq<Text>, n: int)
    requires
        0 <= n <= list.len(),
        parsed_names(list.take(n)) is Err,
    ensures
        parsed_names(list) == parsed_names(list.take(n)),
    decreases list.len(),
{
    if n == list.len() {
        assert(list.take(n) == list);
    } else {
        assert(list.drop_last().take(n) == list.take(n));
        lemma_names_error(list.drop_last(), n);
    }
}

impl Manifest {
    /// Converts a raw manifest; fails on the first field that is invalid.
    pub fn from_raw(raw: RawManifest) -> (r: Result<Self, ParseError>)
        ensures
            views::result_view(r) == converted(raw.deep_view()),
    {
        let name = match PackageName::new(raw.name.as_str()) {
            Ok(name) => name,
            Err(e) => {
                return Err(ParseError::InvalidName(e));
            },
        };
        let version = match Version::new(raw.version.as_str()) {
            Ok(version) => version,
            Err(_) => {
                return Err(ParseError::InvalidVersion);
            },
        };
        let revision: u32 = match raw.revision {
            Some(n) => n,
            None => 0,
        };
        let hash = match SourceHash::parse(raw.source.hash.as_str()) {
            Ok(hash) => hash,
            Err(e) => {
                return Err(ParseError::InvalidHash(e));
            },
        };
        let depends = match parse_constraints(&raw.depends) {
            Ok(depends) => depends,
            Err(e) => {
                return Err(ParseError::InvalidDepConstraint(e));
            },
        };
        let depends_any = match parse_groups(&raw.depends_any) {
            Ok(depends_any) => depends_any,
            Err(e) => {
                return Err(ParseError::InvalidDepConstraint(e));
            },
        };
        let recommended = match parse_constraints(&raw.recommends) {
            Ok(recommended) => recommended,
            Err(e) => {
                return Err(ParseError::InvalidDepConstraint(e));
            },
        };
        let conflicts = match parse_names(&raw.conflicts) {
            Ok(conflicts) => conflicts,
            Err(e) => {
                return Err(ParseError::InvalidName(e));
            },
        };
        Ok(
            Manifest {
                name,
                version,
                revision,
                source: Source { kind: raw.source.kind, url: raw.source.url, hash },
                depends,
                depends_any,
                recommends: recommended,
                conflicts,
                provides: raw.provides,
                files: raw.files,
                commands: raw.commands,
            },
        )
    }
}

impl TryFrom<RawManifest> for Manifest {
    type Error = ParseError;

    fn try_from(raw: RawManifest) -> (r: Result<Self, Self::Error>)
        ensures
            views::result_view(r) == converted(raw.deep_view()),
    {
        Manifest::from_raw(raw)
    }
}

impl vstd::std_specs::convert::TryFromSpecImpl<RawManifest> for Manifest {
    open spec fn obeys_try_from_spec() -> bool {
        false
    }

    open spec fn try_from_spec(raw: RawManifest) -> Result<Self, ParseError> {
        arbitrary()
    }
}

/// The manifest that a decoded document describes. Does not run validation.
pub fn parse(decoded: Result<ManifestRoot, String>) -> (r: Result<Manifest, ParseError>)
    ensures
        views::result_view(r) == parsed(views::result_view(decoded)),
{
    match decoded {
        Err(message) => Err(ParseError::Toml(message)),
        Ok(root) => Manifest::from_raw(root.sic),
    }
}

/// Validates manifest (paths: no absolute, no traversal; source URL format).
pub fn validate(m: &Manifest) -> (r: Result<(), ValidationError>)
    ensures
        match r {
            Ok(()) => problem(m@) is None,
            Err(e) => problem(m@) == Some(e@),
        },
{
    let u = text::trim(m.source.url.as_str());
    if u.is_empty() {
        return Err(
            ValidationError::InvalidSourceUrl {
                value: m.source.url.clone(),
                reason: "source URL must be non-empty".to_owned(),
            },
        );
    }
    if !text::starts_with(u, "http://") && !text::starts_with(u, "https://") && !text::starts_with(
        u,
        "file://",
    ) {
        return Err(
            ValidationError::InvalidSourceUrl {
                value: m.source.url.clone(),
                reason: "source URL must start with http://, https://, or file://".to_owned(),
            },
        );
    }
    match validate_paths(&m.files) {
        Err(e) => Err(e),
        Ok(()) => validate_paths(&m.commands),
    }
}

fn validate_paths(entries: &Vec<String>) -> (r: Result<(), ValidationError>)
    ensures
        match r {
            Ok(()) => paths_problem(entries.deep_view()) is None,
            Err(e) => paths_problem(entries.deep_view()) == Some(e@),
        },
{
    let ghost all = entries.deep_view();
    let mut i: usize = 0;
    while i < entries.len()
        invariant
            i <= entries@.len(),
            all == entries.deep_view(),
            paths_problem(all.take(i as int)) is None,
        decreases entries@.len() - i,
    {
        assert(all.take(i + 1).drop_last() == all.take(i as int));
        assert(entries@[i as int]@ == all[i as int]);
        match validate_path_entry(entries[i].as_str()) {
            Ok(()) => {},
            Err(e) => {
                proof {
                    lemma_paths_error(all, i + 1);
                }
                return Err(e);
            },
        }
        i += 1;
    }
    assert(all.take(all.len() as int) == all);
    Ok(())
}

/// A bad path makes every list that continues it bad in the same way.
proof fn lemma_paths_error(entries: Seq<Text>, n: int)
    requires
        0 <= n <= entries.len(),
        paths_problem(entries.take(n)) is Some,
    ensures
        paths_problem(entries) == paths_problem(entries.take(n)),
    decreases entries.len(),
{
    if n == entries.len() {
        assert(entries.take(n) == entries);
    } else {
        assert(entries.drop_last().take(n) == entries.take(n));
        lemma_paths_error(entries.drop_last(), n);
    }
}

/// Validates one path: relative and without `..`.
pub fn validate_path_entry(entry: &str) -> (r: Result<(), ValidationError>)
    ensures
        match r {
            Ok(()) => path_problem(entry@) is None,
            Err(e) => path_problem(entry@) == Some(e@),
        },
{
    let entry = text::trim(entry);
    if entry.is_empty() {
        return Ok(());
    }
    if entry.get_char(0) == '/' {
        return Err(
            ValidationError::InvalidPath {
                value: entry.to_owned(),
                reason: "absolute path not allowed".to_owned(),
            },
        );
    }
    let segments = text::split_chars(entry, '/');
    if text::list_contains(&segments, "..") {
        return Err(
            ValidationError::InvalidPath {
                value: entry.to_owned(),
                reason: "path traversal (..) not allowed".to_owned(),
            },
        );
    }
    Ok(())
}

/// Parses and validates manifest.
pub fn parse_and_validate(decoded: Result<ManifestRoot, String>) -> (r: Result<
    Manifest,
    ParseOrValidationError,
>)
    ensures
        views::result_view(r) == parsed_and_validated(views::result_view(decoded)),
{
    match parse(decoded) {
        Err(e) => Err(ParseOrValidationError::Parse(e)),
        Ok(m) => match validate(&m) {
            Err(e) => Err(ParseOrValidationError::Validation(e)),
            Ok(()) => Ok(m),
        },
    }
}

/// Whether a file of the name in a packages dir is a package: its extension is `toml`.
pub open spec fn package_file(name: Text) -> bool {
    ".toml"@.is_suffix_of(name) && name.len() > ".toml"@.len()
}

/// Whether a file of the name in a packages dir is a package: its extension is `toml`.
pub fn is_package_file(name: &str) -> (r: bool)
    ensures
        r == package_file(name@),
{
    match text::strip_suffix(name, ".toml") {
        Some(stem) => !stem.is_empty(),
        None => false,
    }
}

/// The valid packages among the decoded documents.
pub open spec fn valid_packages(documents: Seq<Result<RawManifestView, Text>>) -> Seq<ManifestView>
    decreases documents.len(),
{
    if documents.len() == 0 {
        Seq::empty()
    } else {
        let front = valid_packages(documents.drop_last());
        match parsed_and_validated(documents.last()) {
            Ok(m) => front.push(m),
            Err(_) => front,
        }
    }
}

/// The decoded documents.
pub open spec fn documents_view(documents: Seq<Result<ManifestRoot, String>>) -> Seq<
    Result<RawManifestView, Text>,
> {
    documents.map_values(|d: Result<ManifestRoot, String>| views::result_view(d))
}

/// All valid packages of a packages dir, given the decoded documents of its package files.
/// Skips those that fail to parse or validate.
pub fn load_packages_from_dir(documents: Vec<Result<ManifestRoot, String>>) -> (r: Vec<Manifest>)
    ensures
        r.deep_view() == valid_packages(documents_view(documents@)),
{
    let ghost all = documents_view(documents@);
    let ghost given = documents@;
    let mut rest: Vec<Result<ManifestRoot, String>> = documents;
    let mut out: Vec<Manifest> = Vec::new();
    assert(out.deep_view() =~= Seq::empty());
    assert(all.take(0) =~= Seq::empty());
    let ghost mut done: int = 0;
    while rest.len() > 0
        invariant
            0 <= done <= given.len(),
            rest@ == given.skip(done),
            all == documents_view(given),
            out.deep_view() == valid_packages(all.take(done)),
        decreases rest@.len(),
    {
        let ghost before = out.deep_view();
        let document = rest.remove(0);
        proof {
            assert(document == given[done]);
            assert(all[done] == views::result_view(document));
            assert(all.take(done + 1).drop_last() == all.take(done));
            assert(rest@ =~= given.skip(done + 1));
        }
        match parse_and_validate(document) {
            Ok(m) => {
                let ghost mv = m@;
                out.push(m);
                assert(out.deep_view() =~= before.push(mv));
            },
            Err(_) => {},
        }
        proof {
            done = done + 1;
        }
    }
    assert(all.take(all.len() as int) == all);
    out
}

} // verus!
