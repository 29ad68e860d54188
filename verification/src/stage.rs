//! Stage plan artifacts into the transaction staging directory.
//!
//! What is decided about staging stands here: which steps are staged and where, which files of an
//! unpacked artifact a pattern names, and how each of them is copied. The caller fetches, unpacks
//! and copies.

use vstd::prelude::*;
use vstd::string::*;

use crate::fetch;
use crate::fetch::{FetchError, FetchErrorView};
use crate::resolver::plan::{Plan, PlanAction, PlanStep, PlanStepView};
use crate::text;
use crate::text::Text;
use crate::transaction;
use crate::transaction::{EntryKind, TreeEntry, TreeEntryView};
use crate::views;

verus! {

/// Errors from staging.
#[derive(Clone, Debug, Eq, PartialEq)]
pub enum StageError {
    Fetch(FetchError),
    Extract(String),
    Copy(String),
    Io(String),
    /// Invalid path or glob (e.g. path traversal).
    Path(String),
}

/// What a [`StageError`] holds.
pub enum StageErrorView {
    Fetch(FetchErrorView),
    Extract(Text),
    Copy(Text),
    Io(Text),
    Path(Text),
}

impl DeepView for StageError {
    type V = StageErrorView;

    open spec fn deep_view(&self) -> StageErrorView {
        match self {
            StageError::Fetch(e) => StageErrorView::Fetch(e@),
            StageError::Extract(s) => StageErrorView::Extract(s@),
            StageError::Copy(s) => StageErrorView::Copy(s@),
            StageError::Io(s) => StageErrorView::Io(s@),
            StageError::Path(s) => StageErrorView::Path(s@),
        }
    }
}

impl View for StageError {
    type V = StageErrorView;

    open spec fn view(&self) -> StageErrorView {
        self.deep_view()
    }
}

/// The words for a [`StageError`].
pub open spec fn error_text(e: StageErrorView) -> Text {
    match e {
        StageErrorView::Fetch(e) => "stage fetch: "@ + fetch::error_text(e),
        StageErrorView::Extract(s) => "stage extract: "@ + s,
        StageErrorView::Copy(s) => "stage copy: "@ + s,
        StageErrorView::Io(s) => "stage io: "@ + s,
        StageErrorView::Path(s) => "stage path: "@ + s,
    }
}

impl StageError {
    /// The error in words.
    pub fn to_string(&self) -> (r: String)
        ensures
            r@ == error_text(self@),
    {
        match self {
            StageError::Fetch(e) => "stage fetch: ".to_owned().concat(e.to_string().as_str()),
            StageError::Extract(s) => "stage extract: ".to_owned().concat(s.as_str()),
            StageError::Copy(s) => "stage copy: ".to_owned().concat(s.as_str()),
            StageError::Io(s) => "stage io: ".to_owned().concat(s.as_str()),
            StageError::Path(s) => "stage path: ".to_owned().concat(s.as_str()),
        }
    }
}

impl From<FetchError> for StageError {
    fn from(e: FetchError) -> (r: Self) {
        StageError::Fetch(e)
    }
}

impl vstd::std_specs::convert::FromSpecImpl<FetchError> for StageError {
    open spec fn obeys_from_spec() -> bool {
        true
    }

    open spec fn from_spec(e: FetchError) -> Self {
        StageError::Fetch(e)
    }
}

/// The package directory name of a step, unless it would allow path traversal.
pub open spec fn dir_name(step: PlanStepView) -> Result<Text, StageErrorView> {
    match transaction::dir_name(step) {
        Ok(s) => Ok(s),
        Err(e) => Err(StageErrorView::Path(e)),
    }
}

/// Package directory name for staging (e.g. "foo-1.0"). The same as that of the transaction.
pub fn pkg_dir_name(step: &PlanStep) -> (r: Result<String, StageError>)
    ensures
        views::result_view(r) == dir_name(step@),
{
    match transaction::pkg_dir_name(step) {
        Ok(s) => Ok(s),
        Err(e) => Err(StageError::Path(e.to_string())),
    }
}

/// Whether the unpacked content lies in a single top-level directory, given for each top-level
/// entry whether it is a directory and no link.
pub fn has_single_top_dir(entries: &Vec<bool>) -> (r: bool)
    ensures
        r == (entries@ == seq![true]),
{
    if entries.len() == 1 {
        assert(entries@ =~= seq![entries@[0]]);
        if entries[0] {
            return true;
        }
        assert(seq![true][0]);
        false
    } else {
        assert(seq![true].len() == 1);
        false
    }
}

/// What a file pattern of a package names.
#[derive(Debug, Eq, PartialEq)]
pub enum FilePattern {
    /// Nothing: the pattern is blank.
    Nothing,
    /// All files at or below a path; all files if it is empty.
    Glob(String),
    /// A single file, or the files in a directory.
    Literal(String),
}

/// What a [`FilePattern`] holds.
pub enum FilePatternView {
    Nothing,
    Glob(Text),
    Literal(Text),
}

impl DeepView for FilePattern {
    type V = FilePatternView;

    open spec fn deep_view(&self) -> FilePatternView {
        match self {
            FilePattern::Nothing => FilePatternView::Nothing,
            FilePattern::Glob(s) => FilePatternView::Glob(s@),
            FilePattern::Literal(s) => FilePatternView::Literal(s@),
        }
    }
}

/// `s` without `suffix` at its end, if it has it.
pub open spec fn without_suffix(s: Text, suffix: Text) -> Text {
    if suffix.is_suffix_of(s) {
        s.take(s.len() - suffix.len())
    } else {
        s
    }
}

/// What a file pattern names. Backslashes count as slashes; a pattern may not lead upwards.
pub open spec fn parsed_pattern(pattern: Text) -> Result<FilePatternView, StageErrorView> {
    let p = text::replaced(text::trimmed(pattern), '\\', '/');
    if p.len() == 0 {
        Ok(FilePatternView::Nothing)
    } else if text::contains_text(p, ".."@) {
        Err(StageErrorView::Path("pattern must not contain .."@))
    } else if p.contains('*') {
        Ok(FilePatternView::Glob(without_suffix(without_suffix(p, "/*"@), "*"@)))
    } else {
        Ok(FilePatternView::Literal(p))
    }
}

/// What a file pattern names: either a literal path or a glob (*).
pub fn parse_pattern(pattern: &str) -> (r: Result<FilePattern, StageError>)
    ensures
        views::result_view(r) == parsed_pattern(pattern@),
{
    let trimmed = text::trim(pattern);
    if trimmed.is_empty() {
        return Ok(FilePattern::Nothing);
    }
    let p = text::replace_char(trimmed, '\\', '/');
    if text::has_text(p.as_str(), "..") {
        return Err(StageError::Path("pattern must not contain ..".to_owned()));
    }
    if text::has_char(p.as_str(), '*') {
        let base = match text::strip_suffix(p.as_str(), "/*") {
            Some(base) => base,
            None => p.as_str(),
        };
        let base = match text::strip_suffix(base, "*") {
            Some(base) => base,
            None => base,
        };
        return Ok(FilePattern::Glob(base.to_owned()));
    }
    Ok(FilePattern::Literal(p))
}

/// Whether a file lies at or below the path of a glob.
pub open spec fn under_glob(base: Text, file: Text) -> bool {
    base.len() == 0 || file == base || (base + "/"@).is_prefix_of(file)
}

/// Whether the entry is a file that the glob names.
pub open spec fn globbed(base: Text, e: TreeEntryView) -> bool {
    e.kind != EntryKind::Directory && under_glob(base, text::replaced(e.path, '\\', '/'))
}

/// The positions of the entries that the glob names, unless a directory lies too deep.
pub open spec fn glob_matches(base: Text, entries: Seq<TreeEntryView>) -> Result<
    Seq<usize>,
    StageErrorView,
>
    decreases entries.len(),
{
    if entries.len() == 0 {
        Ok(Seq::empty())
    } else {
        match glob_matches(base, entries.drop_last()) {
            Err(e) => Err(e),
            Ok(front) => if transaction::too_deep(entries.last()) {
                Err(StageErrorView::Path("extract tree too deep when resolving file pattern"@))
            } else if globbed(base, entries.last()) {
                Ok(front.push((entries.len() - 1) as usize))
            } else {
                Ok(front)
            },
        }
    }
}

/// The positions, in the listing of the unpacked content, of the files at or below the path of a
/// glob.
pub fn walk_under(base: &str, entries: &Vec<TreeEntry>) -> (r: Result<Vec<usize>, StageError>)
    ensures
        match r {
            Ok(v) => glob_matches(base@, entries.deep_view()) == Ok::<_, StageErrorView>(v@),
            Err(e) => glob_matches(base@, entries.deep_view()) == Err::<Seq<usize>, _>(e@),
        },
{
    let ghost all = entries.deep_view();
    let below = base.to_owned().concat("/");
    let mut out: Vec<usize> = Vec::new();
    let mut i: usize = 0;
    assert(out@ =~= Seq::empty());
    while i < entries.len()
        invariant
            i <= entries@.len(),
            all == entries.deep_view(),
            below@ == base@ + "/"@,
            glob_matches(base@, all.take(i as int)) == Ok::<_, StageErrorView>(out@),
        decreases entries@.len() - i,
    {
        assert(all[i as int] == entries@[i as int]@);
        assert(all.take(i + 1).drop_last() == all.take(i as int));
        let e = &entries[i];
        let file = text::replace_char(e.path.as_str(), '\\', '/');
        if transaction::is_too_deep(e) {
            proof {
                lemma_glob_error(base@, all, i + 1);
            }
            return Err(
                StageError::Path("extract tree too deep when resolving file pattern".to_owned()),
            );
        }
        if e.kind != EntryKind::Directory && (base.is_empty() || text::same_text(
            file.as_str(),
            base,
        ) || text::starts_with(file.as_str(), below.as_str())) {
            out.push(i);
        }
        i += 1;
    }
    assert(all.take(all.len() as int) == all);
    Ok(out)
}

proof fn lemma_glob_error(base: Text, entries: Seq<TreeEntryView>, n: int)
    requires
        0 <= n <= entries.len(),
        glob_matches(base, entries.take(n)) is Err,
    ensures
        glob_matches(base, entries) == glob_matches(base, entries.take(n)),
    decreases entries.len(),
{
    if n == entries.len() {
        assert(entries.take(n) == entries);
    } else {
        assert(entries.drop_last().take(n) == entries.take(n));
        lemma_glob_error(base, entries.drop_last(), n);
    }
}

/// What stands at a literal path below the unpacked content.
#[derive(Clone, Copy, Debug, Eq, PartialEq, Structural)]
pub enum LiteralFound {
    Nothing,
    /// A file, and whether it lies in the unpacked content.
    File { inside: bool },
    /// A directory, whose files count that lie in the unpacked content.
    Directory,
}

/// What a literal path names.
#[derive(Clone, Copy, Debug, Eq, PartialEq, Structural)]
pub enum LiteralFiles {
    Nothing,
    TheFile,
    FilesInside,
}

/// What a literal path names: a file in the unpacked content, the files of a directory, or nothing.
pub fn resolve_literal(found: LiteralFound) -> (r: Result<LiteralFiles, StageError>)
    ensures
        views::result_view(r) == match found {
            LiteralFound::Nothing => Ok::<LiteralFiles, StageErrorView>(LiteralFiles::Nothing),
            LiteralFound::File { inside: true } => Ok(LiteralFiles::TheFile),
            LiteralFound::File { inside: false } => Err(
                StageErrorView::Path("pattern path outside extract"@),
            ),
            LiteralFound::Directory => Ok(LiteralFiles::FilesInside),
        },
{
    match found {
        LiteralFound::Nothing => Ok(LiteralFiles::Nothing),
        LiteralFound::File { inside } => {
            if inside {
                Ok(LiteralFiles::TheFile)
            } else {
                Err(StageError::Path("pattern path outside extract".to_owned()))
            }
        },
        LiteralFound::Directory => Ok(LiteralFiles::FilesInside),
    }
}

impl DeepView for LiteralFiles {
    type V = LiteralFiles;

    open spec fn deep_view(&self) -> LiteralFiles {
        *self
    }
}

/// What is to be copied from the unpacked content.
#[derive(Debug, Eq, PartialEq)]
pub enum CopySource {
    /// Nothing is there.
    Missing,
    /// A link, with its target.
    Link(String),
    File,
    /// Something that is neither a file nor a link.
    Other,
}

/// What a [`CopySource`] holds.
pub enum CopySourceView {
    Missing,
    Link(Text),
    File,
    Other,
}

impl DeepView for CopySource {
    type V = CopySourceView;

    open spec fn deep_view(&self) -> CopySourceView {
        match self {
            CopySource::Missing => CopySourceView::Missing,
            CopySource::Link(target) => CopySourceView::Link(target@),
            CopySource::File => CopySourceView::File,
            CopySource::Other => CopySourceView::Other,
        }
    }
}

/// How something is copied to the staging directory.
#[derive(Clone, Copy, Debug, Eq, PartialEq, Structural)]
pub enum CopyKind {
    /// Not at all.
    Skip,
    /// Only the directory that it would lie in is made.
    ParentOnly,
    /// As a link with the same target.
    Link,
    /// As a file.
    File,
}

impl DeepView for CopyKind {
    type V = CopyKind;

    open spec fn deep_view(&self) -> CopyKind {
        *self
    }
}

/// How something is copied to the staging directory. No path may lead upwards, and no link may
/// lead out of the package.
pub open spec fn copy_kind(path: Text, from: CopySourceView) -> Result<CopyKind, StageErrorView> {
    let p = text::replaced(path, '\\', '/');
    match from {
        CopySourceView::Missing => Ok(CopyKind::Skip),
        _ => if text::contains_text(p, ".."@) {
            Err(StageErrorView::Path("path traversal not allowed"@))
        } else {
            match from {
                CopySourceView::Link(target) => if target.len() > 0 && target[0] == '/' {
                    Err(StageErrorView::Path("symlink with absolute target not allowed"@))
                } else if text::split(target, '/').contains(".."@) {
                    Err(StageErrorView::Path("symlink target must not contain .."@))
                } else {
                    Ok(CopyKind::Link)
                },
                CopySourceView::File => Ok(CopyKind::File),
                _ => Ok(CopyKind::ParentOnly),
            }
        },
    }
}

/// How a file (or symlink) is copied from the unpacked content to the same path in the staging
/// directory. Symlinks are recreated as symlinks; absolute targets are rejected to avoid copying
/// from outside the extract directory.
pub fn copy_relative_file(path: &str, from: &CopySource) -> (r: Result<CopyKind, StageError>)
    ensures
        views::result_view(r) == copy_kind(path@, from.deep_view()),
{
    match from {
        CopySource::Missing => {
            return Ok(CopyKind::Skip);
        },
        _ => {},
    }
    let p = text::replace_char(path, '\\', '/');
    if text::has_text(p.as_str(), "..") {
        return Err(StageError::Path("path traversal not allowed".to_owned()));
    }
    match from {
        CopySource::Link(target) => {
            let target = target.as_str();
            if !target.is_empty() && target.get_char(0) == '/' {
                return Err(
                    StageError::Path("symlink with absolute target not allowed".to_owned()),
                );
            }
            if text::list_contains(&text::split_chars(target, '/'), "..") {
                return Err(StageError::Path("symlink target must not contain ..".to_owned()));
            }
            Ok(CopyKind::Link)
        },
        CopySource::File => Ok(CopyKind::File),
        _ => Ok(CopyKind::ParentOnly),
    }
}

/// A step to be staged: its position in the plan, its directory, and what is said of it first.
#[derive(Debug, Eq, PartialEq)]
pub struct StageTask {
    pub step: usize,
    pub dir: Result<String, StageError>,
    pub message: Option<String>,
}

/// What a [`StageTask`] holds.
pub struct StageTaskView {
    pub step: usize,
    pub dir: Result<Text, StageErrorView>,
    pub message: Option<Text>,
}

impl DeepView for StageTask {
    type V = StageTaskView;

    open spec fn deep_view(&self) -> StageTaskView {
        StageTaskView {
            step: self.step,
            dir: views::result_view(self.dir),
            message: self.message.deep_view(),
        }
    }
}

/// How many of the steps are staged: all but removals.
pub open spec fn staged_count(steps: Seq<PlanStepView>) -> nat
    decreases steps.len(),
{
    if steps.len() == 0 {
        0
    } else {
        staged_count(steps.drop_last()) + if steps.last().action == PlanAction::Remove {
            0nat
        } else {
            1nat
        }
    }
}

/// What is said before a step is staged.
pub open spec fn stage_message(number: nat, total: nat, step: PlanStepView) -> Text {
    "stage: "@ + text::decimal(number) + "/"@ + text::decimal(total) + " packages: "@ + step.name
        + "-"@ + step.version
}

/// The steps to be staged, in order: all but removals. Each is announced if asked for, or if
/// progress is shown and there is more than one.
pub open spec fn stage_tasks(
    steps: Seq<PlanStepView>,
    total: nat,
    verbose: bool,
    show_progress: bool,
) -> Seq<StageTaskView>
    decreases steps.len(),
{
    if steps.len() == 0 {
        Seq::empty()
    } else {
        let front = stage_tasks(steps.drop_last(), total, verbose, show_progress);
        let step = steps.last();
        if step.action == PlanAction::Remove {
            front
        } else {
            front.push(
                StageTaskView {
                    step: (steps.len() - 1) as usize,
                    dir: dir_name(step),
                    message: if verbose || (show_progress && total > 1) {
                        Some(stage_message(front.len() + 1, total, step))
                    } else {
                        None
                    },
                },
            )
        }
    }
}

fn count_staged(steps: &Vec<PlanStep>) -> (r: usize)
    ensures
        r == staged_count(steps.deep_view()),
        r <= steps@.len(),
{
    let ghost all = steps.deep_view();
    let mut n: usize = 0;
    let mut i: usize = 0;
    while i < steps.len()
        invariant
            n <= i <= steps@.len(),
            all == steps.deep_view(),
            n == staged_count(all.take(i as int)),
        decreases steps@.len() - i,
    {
        assert(all[i as int] == steps@[i as int]@);
        assert(all.take(i + 1).drop_last() == all.take(i as int));
        if steps[i].action != PlanAction::Remove {
            n += 1;
        }
        i += 1;
    }
    assert(all.take(all.len() as int) == all);
    n
}

/// The steps of the plan to be staged into the transaction staging directory, in order: for each,
/// the caller fetches the artifact to cache, extracts it, and copies the listed files (with glob
/// expansion) into prefix/tmp/<tx-id>/<name-version>/.
pub fn stage_plan(plan: &Plan, verbose: bool, show_progress: bool) -> (r: Vec<StageTask>)
    ensures
        r.deep_view() == stage_tasks(
            plan@.steps,
            staged_count(plan@.steps),
            verbose,
            show_progress,
        ),
{
    let ghost all = plan@.steps;
    let total: usize = count_staged(&plan.steps);
    let mut tasks: Vec<StageTask> = Vec::new();
    let mut i: usize = 0;
    assert(tasks.deep_view() =~= Seq::empty());
    while i < plan.steps.len()
        invariant
            i <= plan.steps@.len(),
            all == plan.steps.deep_view(),
            tasks@.len() <= i,
            tasks.deep_view() == stage_tasks(
                all.take(i as int),
                total as nat,
                verbose,
                show_progress,
            ),
        decreases plan.steps@.len() - i,
    {
        let ghost before = tasks.deep_view();
        let step = &plan.steps[i];
        assert(all[i as int] == step@);
        assert(all.take(i + 1).drop_last() == all.take(i as int));
        if step.action != PlanAction::Remove {
            let number: usize = tasks.len() + 1;
            let message: Option<String> = if verbose || (show_progress && total > 1) {
                Some(
                    "stage: ".to_owned().concat(text::decimal_text(number as u64).as_str()).concat(
                        "/",
                    ).concat(text::decimal_text(total as u64).as_str()).concat(
                        " packages: ",
                    ).concat(step.name.as_str()).concat("-").concat(step.version.as_str()),
                )
            } else {
                None
            };
            let task = StageTask { step: i, dir: pkg_dir_name(step), message };
            let ghost tv = task.deep_view();
            tasks.push(task);
            assert(tasks.deep_view() =~= before.push(tv));
        }
        i += 1;
    }
    assert(all.take(all.len() as int) == all);
    tasks
}

/// What a glob names never lies beside its path: `share/helix/*` does not name a file in
/// `share/helix-something`.
pub proof fn lemma_glob_stays_below(base: Text, file: Text)
    requires
        base.len() > 0,
        under_glob(base, file),
    ensures
        base.is_prefix_of(file),
        file.len() > base.len() ==> file[base.len() as int] == '/',
{
    reveal_strlit("/");
    let below = base + "/"@;
    if below.is_prefix_of(file) {
        assert(file.subrange(0, below.len() as int) == below);
        assert forall|i: int| 0 <= i < base.len() implies base[i] == file[i] by {
            assert(below[i] == file.subrange(0, below.len() as int)[i]);
        }
        assert(base =~= file.subrange(0, base.len() as int));
        assert(below[base.len() as int] == file.subrange(0, below.len() as int)[base.len() as int]);
    } else {
        assert(base =~= file.subrange(0, base.len() as int));
    }
}

} // verus!
