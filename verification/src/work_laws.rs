//! What fetching, staging and committing come to, stated of the positions in plans, trees and lists.

use vstd::prelude::*;
use vstd::string::*;

use crate::fetch;
use crate::fetch::{
    CachedView, CopyOutcomeView, FetchActionView, FetchErrorView, FetchEventView, FileBytesView,
};
use crate::lists;
use crate::paths;
use crate::resolver::plan::PlanStepView;
use crate::resolver::PlanAction;
use crate::source::{SourceHashView, SourceView};
use crate::stage;
use crate::stage::{CopyKind, CopySourceView, FilePatternView, StageErrorView};
use crate::storage::cache;
use crate::storage::installed;
use crate::storage::installed::InstalledEntryView;
use crate::text;
use crate::text::Text;
use crate::text_laws;
use crate::transaction;
use crate::transaction::{
    CommitActionView, CommitEventView, EntryKind, RemovalAction, Staged, StepActionView,
    TransactionState, TreeAction, TreeEntryView,
};
use crate::value_laws;

verus! {

/// A percentage is the number of whole hundredths: all of an amount is 100, and nothing is 0.
pub proof fn lemma_percent(downloaded: u64, total: u64)
    ensures
        total > 0 ==> {
            let p = fetch::percent_of(downloaded, total);
            p * total <= downloaded * 100 && downloaded * 100 < (p + 1) * total
        },
        total > 0 ==> fetch::percent_of(total, total) == 100,
        fetch::percent_of(0, total) == 0,
        fetch::percent_of(downloaded, 0) == 0,
{
    if total > 0 {
        let a = downloaded * 100;
        let t = total as int;
        let p = a / t;
        assert(p * t <= a && a < (p + 1) * t) by (nonlinear_arith)
            requires
                t > 0,
                p == a / t,
        ;
        assert((t * 100) / t == 100) by (nonlinear_arith)
            requires
                t > 0,
        ;
        assert(0int / t == 0) by (nonlinear_arith)
            requires
                t > 0,
        ;
    }
}

/// Progress is reported after 64 KiB since the last report, or after a tenth of a second.
pub proof fn lemma_reports(p: fetch::Progress, elapsed_ms: u64)
    requires
        p.last_reported <= p.written,
    ensures
        fetch::reports(p, elapsed_ms) == (p.written >= p.last_reported + 65536 || elapsed_ms
            >= 100),
{
}

/// A file is what it should be exactly if it could be read and its digest by the algorithm of the
/// hash, which is `sha256` or `sha512`, is written by the digits of the hash. What it is instead is
/// reported.
pub proof fn lemma_file_verified(bytes: Seq<u8>, hex: Text, e: Text, algorithm: Text)
    ensures
        (fetch::file_verified(
            FileBytesView::Contents(bytes),
            (SourceHashView { algorithm: "sha256"@, hex }),
        ) is Ok) == (hex == text::hex(cache::sha256(bytes))),
        (fetch::file_verified(
            FileBytesView::Contents(bytes),
            (SourceHashView { algorithm: "sha512"@, hex }),
        ) is Ok) == (hex == text::hex(fetch::sha512(bytes))),
        fetch::file_verified(
            FileBytesView::Contents(bytes),
            (SourceHashView { algorithm: "sha256"@, hex }),
        ) matches Err(f) ==> f == (FetchErrorView::HashMismatch {
            expected: hex,
            computed: text::hex(cache::sha256(bytes)),
        }),
        text::lowered(algorithm) != "sha256"@ && text::lowered(algorithm) != "sha512"@
            ==> fetch::file_verified(
            FileBytesView::Contents(bytes),
            (SourceHashView { algorithm, hex }),
        ) is Err,
        fetch::file_verified(FileBytesView::Unopened(e), (SourceHashView { algorithm, hex }))
            is Err,
        fetch::file_verified(FileBytesView::Unread(e), (SourceHashView { algorithm, hex })) is Err,
{
    reveal_strlit("sha256");
    reveal_strlit("sha512");
    let a = "sha256"@;
    let b = "sha512"@;
    assert(vstd::utf8::is_ascii_chars(a) && vstd::utf8::is_ascii_chars(b));
    assert(text::ascii_lowered(a) =~= a);
    assert(text::ascii_lowered(b) =~= b);
    assert(a[3] == '2' && b[3] == '5');
}

/// A local file is copied from what follows `file://`; any other URL is downloaded as it is.
pub proof fn lemma_fetched_from(source: SourceView, path: Text)
    ensures
        source.url == "file://"@ + path && !"file://"@.is_prefix_of(path) ==> fetch::fetch_next(
            source,
            FetchEventView::Prepared(Ok(())),
        ) == FetchActionView::CopyLocal(path),
        !"file://"@.is_prefix_of(source.url) ==> fetch::fetch_next(
            source,
            FetchEventView::Prepared(Ok(())),
        ) == FetchActionView::Download(source.url),
        (fetch::fetch_start(source) == FetchActionView::Look) == (source.kind == "tarball"@),
{
    reveal_strlit("file://");
    let scheme = "file://"@;
    if source.url == scheme + path && !scheme.is_prefix_of(path) {
        assert(scheme =~= source.url.subrange(0, scheme.len() as int));
        assert(source.url.skip(scheme.len() as int) =~= path);
        assert(fetch::trimmed_of(path, scheme) == path);
    }
}

/// A fetch goes on until the artifact serves: what is missing from the cache, or does not verify, is
/// fetched anew, read, and put there if it verifies. Any failure ends it and is the one that is
/// reported; that of a file that does not verify comes after the file was removed.
pub proof fn lemma_fetch_course(source: SourceView, file: FileBytesView, e: Text, f: FetchErrorView)
    ensures
        ({
            let next = |event: FetchEventView| fetch::fetch_next(source, event);
            let good = fetch::file_verified(file, source.hash) is Ok;
            &&& next(FetchEventView::Looked(CachedView::Nothing)) is Prepare
            &&& next(FetchEventView::Removed) is Prepare
            &&& next(FetchEventView::Looked(CachedView::File(file))) is UseCached == good
            &&& next(FetchEventView::Looked(CachedView::File(file))) is RemoveCachedFile == !good
            &&& next(FetchEventView::Looked(CachedView::NotFile)) is RemoveCachedDir
            &&& next(FetchEventView::Copied(CopyOutcomeView::Copied)) is ReadTemp
            &&& next(FetchEventView::Downloaded(Ok(()))) is ReadTemp
            &&& next(FetchEventView::Read(file)) is Publish == good
            &&& next(FetchEventView::Read(file)) matches FetchActionView::RemoveTemp(g)
                ==> fetch::file_verified(file, source.hash) == Err::<(), _>(g)
            &&& !good ==> next(FetchEventView::Read(file)) is RemoveTemp
            &&& next(FetchEventView::Published(Ok(()))) is Done
            &&& next(FetchEventView::TempRemoved(f)) == FetchActionView::Fail(f)
            &&& next(FetchEventView::Downloaded(Err(f))) == FetchActionView::Fail(f)
            &&& next(FetchEventView::Prepared(Err(e))) == FetchActionView::Fail(
                FetchErrorView::Io(e),
            )
            &&& next(FetchEventView::Copied(CopyOutcomeView::Failed(e))) == FetchActionView::Fail(
                FetchErrorView::Io(e),
            )
            &&& next(FetchEventView::Copied(CopyOutcomeView::NotFile)) is Fail
            &&& next(FetchEventView::Published(Err(e))) == FetchActionView::Fail(
                FetchErrorView::Io(e),
            )
        }),
{
}

/// Whether two dots stand next to each other in the text.
pub open spec fn double_dot(s: Text) -> bool {
    exists|i: int| 0 <= i < s.len() - 1 && #[trigger] s[i] == '.' && s[i + 1] == '.'
}

proof fn lemma_double_dot(s: Text)
    ensures
        text::contains_text(s, ".."@) == double_dot(s),
{
    reveal_strlit("..");
    let pat = ".."@;
    if text::contains_text(s, pat) {
        let i = choose|i: int| text::occurs_at(s, pat, i);
        let part = s.subrange(i, i + pat.len());
        assert(part == pat);
        assert(part[0] == s[i] && part[1] == s[i + 1]);
        assert(s[i] == '.' && s[i + 1] == '.');
    }
    if double_dot(s) {
        let i = choose|i: int| 0 <= i < s.len() - 1 && #[trigger] s[i] == '.' && s[i + 1] == '.';
        assert(s.subrange(i, i + pat.len()) =~= pat);
        assert(text::occurs_at(s, pat, i));
    }
}

/// A package directory is the name, a hyphen and the version. It is refused exactly if it holds a
/// separator or two dots in a row.
pub proof fn lemma_dir_name(step: PlanStepView)
    ensures
        ({
            let dir = step.name + seq!['-'] + step.version;
            let bad = double_dot(dir) || (exists|i: int|
                0 <= i < dir.len() && (#[trigger] dir[i] == '/' || dir[i] == '\\'));
            &&& transaction::dir_name(step) is Err == bad
            &&& !bad ==> transaction::dir_name(step) == Ok::<_, Text>(dir)
            &&& stage::dir_name(step) is Err == bad
            &&& !bad ==> stage::dir_name(step) == Ok::<_, StageErrorView>(dir)
        }),
{
    reveal_strlit("-");
    let dir = step.name + seq!['-'] + step.version;
    assert("-"@ =~= seq!['-']);
    lemma_double_dot(dir);
    assert(dir == transaction::dir_of(step.name, step.version));
    if dir.contains('/') {
        let i = choose|i: int| 0 <= i < dir.len() && dir[i] == '/';
        assert(dir[i] == '/');
    }
    if dir.contains('\\') {
        let i = choose|i: int| 0 <= i < dir.len() && dir[i] == '\\';
        assert(dir[i] == '\\');
    }
    if exists|i: int| 0 <= i < dir.len() && (#[trigger] dir[i] == '/' || dir[i] == '\\') {
        let i = choose|i: int| 0 <= i < dir.len() && (#[trigger] dir[i] == '/' || dir[i] == '\\');
        assert(dir.contains(dir[i]));
    }
}

/// A file pattern names nothing exactly if it is blank. Otherwise it is refused exactly if two dots
/// stand in a row in it; one with a star is a glob, and any other a path. Backslashes count as
/// slashes.
pub proof fn lemma_pattern(pattern: Text)
    ensures
        ({
            let p = text::trimmed(pattern);
            let r = stage::parsed_pattern(pattern);
            let slashed = text::replaced(p, '\\', '/');
            &&& (r == Ok::<_, StageErrorView>(FilePatternView::Nothing)) == (p.len() == 0)
            &&& r is Err == double_dot(p)
            &&& p.len() > 0 && !double_dot(p) && (exists|i: int|
                0 <= i < p.len() && #[trigger] p[i] == '*') ==> (r matches Ok(
                FilePatternView::Glob(_),
            ))
            &&& p.len() > 0 && !double_dot(p) && (forall|i: int|
                0 <= i < p.len() ==> #[trigger] p[i] != '*') ==> r == Ok::<_, StageErrorView>(
                FilePatternView::Literal(slashed),
            )
        }),
{
    let p = text::trimmed(pattern);
    let q = text::replaced(p, '\\', '/');
    lemma_double_dot(q);
    assert forall|i: int| 0 <= i < p.len() implies (#[trigger] q[i] == '.') == (p[i] == '.') && (
    q[i] == '*') == (p[i] == '*') by {}
    assert(q.len() == p.len());
    if double_dot(q) {
        let i = choose|i: int| 0 <= i < q.len() - 1 && #[trigger] q[i] == '.' && q[i + 1] == '.';
        assert(q[i + 1] == '.');
        assert(p[i] == '.' && p[i + 1] == '.');
    }
    if double_dot(p) {
        let i = choose|i: int| 0 <= i < p.len() - 1 && #[trigger] p[i] == '.' && p[i + 1] == '.';
        assert(q[i] == '.' && q[i + 1] == '.');
    }
    if q.contains('*') {
        let i = choose|i: int| 0 <= i < q.len() && q[i] == '*';
        assert(q[i] == '*');
        assert(p[i] == '*');
    }
    if exists|i: int| 0 <= i < p.len() && #[trigger] p[i] == '*' {
        let i = choose|i: int| 0 <= i < p.len() && #[trigger] p[i] == '*';
        assert(q[i] == '*');
        assert(q.contains(q[i]));
    }
}

/// The glob of a directory is the directory: `base/*` and `base*` name what is in `base`, and `*`
/// everything.
pub proof fn lemma_glob_base(base: Text)
    requires
        base.len() > 0,
        text::trimmed(base + "/*"@) == base + "/*"@,
        text::trimmed(base + "*"@) == base + "*"@,
        !double_dot(base),
        forall|i: int| 0 <= i < base.len() ==> #[trigger] base[i] != '*' && base[i] != '\\',
    ensures
        stage::parsed_pattern(base + "/*"@) == Ok::<_, StageErrorView>(FilePatternView::Glob(base)),
        base.last() != '/' ==> stage::parsed_pattern(base + "*"@) == Ok::<_, StageErrorView>(
            FilePatternView::Glob(base),
        ),
        stage::parsed_pattern("*"@) == Ok::<_, StageErrorView>(
            FilePatternView::Glob(Seq::empty()),
        ),
{
    reveal_strlit("/*");
    reveal_strlit("*");
    let a = base + "/*"@;
    let b = base + "*"@;
    lemma_plain_base(a, base);
    lemma_plain_base(b, base);
    lemma_plain_base("*"@, Seq::empty());
    assert(a.contains(a[a.len() - 1]));
    assert(b.contains(b[b.len() - 1]));
    assert("*"@.contains("*"@[0]));
    assert(a.subrange(a.len() - 2, a.len() as int) =~= "/*"@);
    assert(a.take(a.len() - 2) =~= base);
    if "*"@.is_suffix_of(base) {
        assert(base.subrange(base.len() - 1, base.len() as int)[0] == base[base.len() - 1]);
    }
    assert(stage::without_suffix(base, "*"@) == base);
    if "/*"@.is_suffix_of(b) {
        assert(b.subrange(b.len() - 2, b.len() as int)[0] == b[b.len() - 2]);
        assert(base.last() == '/');
    }
    assert(b.subrange(b.len() - 1, b.len() as int) =~= "*"@);
    assert(b.take(b.len() - 1) =~= base);
    let s = "*"@;
    assert(text::trimmed(s) == s);
    assert(s.subrange(0, 1) =~= s);
    assert(s.take(0) =~= Seq::empty());
}

proof fn lemma_plain_base(s: Text, base: Text)
    requires
        !double_dot(base),
        forall|i: int| 0 <= i < base.len() ==> #[trigger] base[i] != '*' && base[i] != '\\',
        s == base + "/*"@ || s == base + "*"@ || s == "*"@,
    ensures
        text::replaced(s, '\\', '/') == s,
        !text::contains_text(s, ".."@),
{
    reveal_strlit("/*");
    reveal_strlit("*");
    assert forall|i: int| 0 <= i < s.len() implies #[trigger] s[i] != '\\' by {
        if i < base.len() && s != "*"@ {
            assert(s[i] == base[i]);
        }
    }
    assert(text::replaced(s, '\\', '/') =~= s);
    lemma_double_dot(s);
    if double_dot(s) {
        let i = choose|i: int| 0 <= i < s.len() - 1 && #[trigger] s[i] == '.' && s[i + 1] == '.';
        assert(s[i + 1] == '.');
        assert(i + 1 < base.len());
        assert(base[i] == '.' && base[i + 1] == '.');
    }
}

/// Whether the entry is no directory, and its path, with `/` as separator, is that of the glob or
/// goes on below it.
pub open spec fn named_by_glob(base: Text, e: TreeEntryView) -> bool {
    let file = text::replaced(e.path, '\\', '/');
    &&& e.kind != EntryKind::Directory
    &&& base.len() == 0 || file == base || (file.len() > base.len() && file.take(base.len() as int)
        == base && file[base.len() as int] == '/')
}

/// Whether the entry is a directory with at least 256 parts in its path.
pub open spec fn very_deep(e: TreeEntryView) -> bool {
    e.kind == EntryKind::Directory && text::split(e.path, '/').len() >= 256
}

proof fn lemma_globbed(base: Text, e: TreeEntryView)
    ensures
        stage::globbed(base, e) == named_by_glob(base, e),
{
    reveal_strlit("/");
    let file = text::replaced(e.path, '\\', '/');
    let below = base + "/"@;
    if below.is_prefix_of(file) {
        assert(file.subrange(0, below.len() as int) == below);
        assert(file.take(base.len() as int) =~= base) by {
            assert forall|i: int| 0 <= i < base.len() implies file[i] == base[i] by {
                assert(file.subrange(0, below.len() as int)[i] == below[i]);
            }
        }
        assert(file.subrange(0, below.len() as int)[base.len() as int] == below[base.len() as int]);
    }
    if file.len() > base.len() && file.take(base.len() as int) == base && file[base.len() as int]
        == '/' {
        assert(below =~= file.subrange(0, below.len() as int)) by {
            assert forall|i: int| 0 <= i < base.len() implies file[i] == base[i] by {
                assert(file.take(base.len() as int)[i] == base[i]);
            }
        }
    }
}

/// A glob names, in the order of the listing, exactly the entries at or below its path that are no
/// directories; it fails exactly if some directory lies too deep.
pub proof fn lemma_glob(base: Text, entries: Seq<TreeEntryView>)
    requires
        entries.len() <= usize::MAX,
    ensures
        stage::glob_matches(base, entries) is Err == (exists|i: int|
            0 <= i < entries.len() && very_deep(#[trigger] entries[i])),
        stage::glob_matches(base, entries) matches Ok(list) ==> {
            &&& forall|a: int, b: int|
                #![trigger list[a], list[b]]
                0 <= a < b < list.len() ==> list[a] < list[b]
            &&& forall|a: int|
                0 <= a < list.len() ==> (#[trigger] list[a]) < entries.len() && named_by_glob(
                    base,
                    entries[list[a] as int],
                )
            &&& forall|i: int|
                0 <= i < entries.len() && named_by_glob(base, #[trigger] entries[i])
                    ==> list.contains(i as usize)
        },
    decreases entries.len(),
{
    if entries.len() > 0 {
        let d = entries.drop_last();
        let n = entries.len() - 1;
        lemma_glob(base, d);
        lemma_globbed(base, entries[n]);
        assert(forall|i: int| 0 <= i < d.len() ==> #[trigger] d[i] == entries[i]);
        assert(very_deep(entries[n]) == transaction::too_deep(entries[n]));
        match stage::glob_matches(base, d) {
            Err(_) => {
                let i = choose|i: int| 0 <= i < d.len() && very_deep(#[trigger] d[i]);
                assert(very_deep(entries[i]));
            },
            Ok(front) => {
                assert forall|i: int| 0 <= i < n implies !very_deep(#[trigger] entries[i]) by {
                    assert(!very_deep(d[i]));
                }
                if !very_deep(entries[n]) {
                    let list = stage::glob_matches(base, entries)->Ok_0;
                    assert forall|i: int|
                        0 <= i < entries.len() && named_by_glob(
                            base,
                            #[trigger] entries[i],
                        ) implies list.contains(i as usize) by {
                        if i < n {
                            assert(named_by_glob(base, d[i]));
                            assert(front.contains(i as usize));
                            if named_by_glob(base, entries[n]) {
                                lists::lemma_push_contains(front, n as usize, i as usize);
                            }
                        } else {
                            lists::lemma_push_contains(front, n as usize, n as usize);
                        }
                    }
                    assert forall|a: int| 0 <= a < list.len() implies (#[trigger] list[a])
                        < entries.len() && named_by_glob(base, entries[list[a] as int]) by {
                        if a < front.len() {
                            assert(list[a] == front[a]);
                            assert(named_by_glob(base, d[front[a] as int]));
                        }
                    }
                    assert forall|a: int, b: int|
                        #![trigger list[a], list[b]]
                        0 <= a < b < list.len() implies list[a] < list[b] by {
                        if b < front.len() {
                            assert(front[a] < front[b]);
                        } else {
                            assert(list[a] == front[a]);
                            assert(front[a] < d.len());
                        }
                    }
                }
            },
        }
    }
}

/// What is copied to the staging directory: nothing where nothing is; a file as a file, and a link as
/// a link. A path with two dots in a row is refused, and so is a link that is absolute or has a part
/// `..`.
pub proof fn lemma_copied(path: Text, target: Text)
    ensures
        stage::copy_kind(path, CopySourceView::Missing) == Ok::<_, StageErrorView>(CopyKind::Skip),
        stage::copy_kind(path, CopySourceView::File) is Err == double_dot(path),
        !double_dot(path) ==> stage::copy_kind(path, CopySourceView::File) == Ok::<
            _,
            StageErrorView,
        >(CopyKind::File),
        !double_dot(path) ==> stage::copy_kind(path, CopySourceView::Other) == Ok::<
            _,
            StageErrorView,
        >(CopyKind::ParentOnly),
        stage::copy_kind(path, CopySourceView::Link(target)) is Err == (double_dot(path) || (
        target.len() > 0 && target[0] == '/') || (exists|i: int|
            0 <= i < text::split(target, '/').len() && #[trigger] text::split(target, '/')[i]
                == ".."@)),
        stage::copy_kind(path, CopySourceView::Link(target)) matches Ok(k) ==> k == CopyKind::Link,
{
    let p = text::replaced(path, '\\', '/');
    lemma_double_dot(p);
    assert forall|i: int| 0 <= i < p.len() implies (#[trigger] p[i] == '.') == (path[i] == '.') by {}
    assert(p.len() == path.len());
    if double_dot(p) {
        let i = choose|i: int| 0 <= i < p.len() - 1 && #[trigger] p[i] == '.' && p[i + 1] == '.';
        assert(p[i + 1] == '.');
        assert(path[i] == '.' && path[i + 1] == '.');
    }
    if double_dot(path) {
        let i = choose|i: int|
            0 <= i < path.len() - 1 && #[trigger] path[i] == '.' && path[i + 1] == '.';
        assert(p[i] == '.' && p[i + 1] == '.');
    }
    let pieces = text::split(target, '/');
    if pieces.contains(".."@) {
        let i = choose|i: int| 0 <= i < pieces.len() && pieces[i] == ".."@;
        assert(pieces[i] == ".."@);
    }
    if exists|i: int| 0 <= i < pieces.len() && #[trigger] pieces[i] == ".."@ {
        let i = choose|i: int| 0 <= i < pieces.len() && #[trigger] pieces[i] == ".."@;
        assert(pieces.contains(pieces[i]));
    }
}

/// Whether a step is staged.
pub open spec fn is_staged() -> spec_fn(PlanStepView) -> bool {
    |s: PlanStepView| s.action != PlanAction::Remove
}

/// There is one task for each step that is no removal, in the order of the steps. It names the step
/// and its directory, and is announced if asked for, or if progress is shown and there is more than
/// one, with its number among them.
pub proof fn lemma_stage_tasks(
    steps: Seq<PlanStepView>,
    total: nat,
    verbose: bool,
    show_progress: bool,
    i: int,
)
    requires
        0 <= i < steps.len() <= usize::MAX,
    ensures
        stage::staged_count(steps) == steps.filter(is_staged()).len(),
        stage::stage_tasks(steps, total, verbose, show_progress).len() == steps.filter(
            is_staged(),
        ).len(),
        steps[i].action != PlanAction::Remove ==> ({
            let at = steps.take(i).filter(is_staged()).len() as int;
            let tasks = stage::stage_tasks(steps, total, verbose, show_progress);
            &&& 0 <= at < tasks.len()
            &&& tasks[at].step == i
            &&& tasks[at].dir == stage::dir_name(steps[i])
            &&& tasks[at].message is Some == (verbose || (show_progress && total > 1))
            &&& tasks[at].message matches Some(line) ==> line == "stage: "@ + text::decimal(
                (at + 1) as nat,
            ) + "/"@ + text::decimal(total) + " packages: "@ + steps[i].name + "-"@
                + steps[i].version
        }),
    decreases steps.len(),
{
    reveal(Seq::filter);
    let d = steps.drop_last();
    let n = steps.len() - 1;
    assert(forall|k: int| 0 <= k < d.len() ==> #[trigger] d[k] == steps[k]);
    if d.len() > 0 {
        lemma_stage_tasks(d, total, verbose, show_progress, if i < n {
            i
        } else {
            0
        });
    }
    if d.len() == 0 {
        assert(d.filter(is_staged()).len() == 0);
        assert(stage::staged_count(d) == 0);
        assert(stage::stage_tasks(d, total, verbose, show_progress).len() == 0);
    }
    if i < n {
        assert(d.take(i) =~= steps.take(i));
    } else {
        assert(steps.take(n) =~= d);
    }
}

/// A package is taken away in this order: its tree is backed up if there is one, each link is backed
/// up and then removed, and last of all the tree is removed.
pub proof fn lemma_package_removal(links: Seq<usize>, j: int)
    requires
        0 <= j < links.len(),
    ensures
        ({
            let with = transaction::package_removal(true, links);
            let bare = transaction::package_removal(false, links);
            &&& with.len() == 2 * links.len() + 2
            &&& bare.len() == 2 * links.len() + 1
            &&& with[0] == RemovalAction::BackupTree
            &&& with.last() == RemovalAction::RemoveTree
            &&& bare.last() == RemovalAction::RemoveTree
            &&& with[2 * j + 1] == RemovalAction::BackupLink(links[j])
            &&& with[2 * j + 2] == RemovalAction::RemoveLink(links[j])
            &&& bare[2 * j] == RemovalAction::BackupLink(links[j])
            &&& bare[2 * j + 1] == RemovalAction::RemoveLink(links[j])
        }),
{
    lemma_link_removals(links, j);
}

proof fn lemma_link_removals(links: Seq<usize>, j: int)
    ensures
        transaction::link_removals(links).len() == 2 * links.len(),
        0 <= j < links.len() ==> transaction::link_removals(links)[2 * j]
            == RemovalAction::BackupLink(links[j]) && transaction::link_removals(links)[2 * j + 1]
            == RemovalAction::RemoveLink(links[j]),
    decreases links.len(),
{
    if links.len() > 0 {
        lemma_link_removals(links.drop_last(), j);
        if j == links.len() - 1 {
            assert(links.last() == links[j]);
        }
    }
}

/// Backing a package up removes nothing: its tree, if there is one, and each of its links are backed
/// up.
pub proof fn lemma_package_backup(links: Seq<usize>, j: int)
    requires
        0 <= j < links.len(),
    ensures
        transaction::package_backup(true, links).len() == links.len() + 1,
        transaction::package_backup(true, links)[0] == RemovalAction::BackupTree,
        transaction::package_backup(true, links)[j + 1] == RemovalAction::BackupLink(links[j]),
        transaction::package_backup(false, links).len() == links.len(),
        transaction::package_backup(false, links)[j] == RemovalAction::BackupLink(links[j]),
{
}

/// What a step does, where its directory is safe. A removal takes the package of its version away and
/// does nothing else. An upgrade first takes the installed version away, from where it is installed;
/// an installation takes nothing away. Both then back up what stands in the new directory and copy the
/// staged package there, if it was staged.
pub proof fn lemma_step_actions(
    step: PlanStepView,
    current: Seq<InstalledEntryView>,
    staged: Staged,
    dir: Text,
)
    requires
        transaction::dir_name(step) == Ok::<_, Text>(dir),
    ensures
        ({
            let (actions, failure) = transaction::step_actions(step, current, staged);
            let gone: Seq<StepActionView> = match step.action {
                PlanAction::Remove => seq![
                    StepActionView::RemovePackage { dir_name: dir, install_path: "pkgs/"@ + dir },
                ],
                PlanAction::Install => Seq::empty(),
                PlanAction::Upgrade => match installed::entry_of(current, step.name) {
                    None => Seq::empty(),
                    Some(e) => seq![
                        StepActionView::RemovePackage {
                            dir_name: step.name + "-"@ + e.version,
                            install_path: e.install_path,
                        },
                    ],
                },
            };
            let copied = step.action != PlanAction::Remove && staged == Staged::Directory;
            &&& actions.len() == gone.len() + if copied {
                2int
            } else {
                0
            }
            &&& gone.is_prefix_of(actions)
            &&& copied ==> actions[actions.len() - 2] == (StepActionView::BackupPackage {
                dir_name: dir,
            }) && actions.last() == (StepActionView::CopyPackage { dir_name: dir })
            &&& failure is Some == (step.action != PlanAction::Remove && staged
                == Staged::NotDirectory)
        }),
{
    let (actions, failure) = transaction::step_actions(step, current, staged);
    let gone = transaction::step_removals(step, dir, current);
    assert(gone =~= actions.subrange(0, gone.len() as int));
}

/// A step with an unsafe directory does nothing and fails.
pub proof fn lemma_unsafe_step(
    step: PlanStepView,
    current: Seq<InstalledEntryView>,
    staged: Staged,
)
    requires
        transaction::dir_name(step) is Err,
    ensures
        transaction::step_actions(step, current, staged).0.len() == 0,
        transaction::step_actions(step, current, staged).1 is Some,
{
}

/// A commit goes through its stages in turn: the lock, the database, its backup, the steps, the new
/// database, the staging directory, the log. What fails is what the commit fails with.
pub proof fn lemma_commit_stages(e: Text)
    ensures
        transaction::commit_start(TransactionState::Pending) is Lock,
        transaction::commit_next(CommitEventView::Locked(Ok(()))) is Load,
        transaction::commit_next(CommitEventView::Loaded(Ok(()))) is SaveDatabase,
        transaction::commit_next(CommitEventView::Saved(Ok(()))) is Apply,
        transaction::commit_next(CommitEventView::Applied(Ok(()))) is WriteDatabase,
        transaction::commit_next(CommitEventView::Written(Ok(()))) is RemoveStaging,
        transaction::commit_next(CommitEventView::StagingRemoved(Ok(()))) is LogCommitted,
        transaction::commit_next(CommitEventView::Logged(Ok(()))) is Done,
        transaction::commit_next(CommitEventView::Locked(Err(e))) == CommitActionView::Fail(e),
        transaction::commit_next(CommitEventView::Saved(Err(e))) == CommitActionView::RollBack(e),
        transaction::commit_next(CommitEventView::Applied(Err(e))) == CommitActionView::RollBack(e),
        transaction::commit_next(CommitEventView::Written(Err(e))) == CommitActionView::RollBack(e),
        transaction::commit_next(CommitEventView::StagingRemoved(Err(e)))
            == CommitActionView::RollBack(e),
        transaction::commit_next(CommitEventView::Logged(Err(e))) == CommitActionView::RollBack(e),
        transaction::commit_next(CommitEventView::RolledBack(e)) == CommitActionView::Fail(e),
{
}

/// What is copied for an entry, by its kind.
pub open spec fn made_for(e: TreeEntryView, i: int) -> TreeAction {
    match e.kind {
        EntryKind::Directory => TreeAction::MakeDirectory(i as usize),
        EntryKind::File => TreeAction::CopyFile(i as usize),
        EntryKind::Link => TreeAction::CopyLink(i as usize),
    }
}

/// A tree is copied entry by entry, each by its kind, up to the first directory that lies too deep,
/// which is made and not entered; it is copied to the end exactly if there is none.
pub proof fn lemma_tree_copied(entries: Seq<TreeEntryView>)
    requires
        entries.len() <= usize::MAX,
    ensures
        ({
            let (actions, stopped) = transaction::copied_tree(entries);
            &&& stopped == (exists|i: int| 0 <= i < entries.len() && very_deep(#[trigger] entries[i]))
            &&& actions.len() <= entries.len()
            &&& !stopped ==> actions.len() == entries.len()
            &&& forall|i: int|
                0 <= i < actions.len() ==> #[trigger] actions[i] == made_for(entries[i], i)
            &&& stopped ==> actions.len() > 0 && very_deep(entries[actions.len() - 1]) && forall|
                i: int,
            |
                0 <= i < actions.len() - 1 ==> !very_deep(#[trigger] entries[i])
        }),
    decreases entries.len(),
{
    if entries.len() > 0 {
        let d = entries.drop_last();
        let n = entries.len() - 1;
        lemma_tree_copied(d);
        assert(forall|i: int| 0 <= i < d.len() ==> #[trigger] d[i] == entries[i]);
        assert(very_deep(entries[n]) == transaction::too_deep(entries[n]));
        let (front, stopped) = transaction::copied_tree(d);
        if stopped {
            let i = choose|i: int| 0 <= i < d.len() && very_deep(#[trigger] d[i]);
            assert(very_deep(entries[i]));
            assert forall|i: int| 0 <= i < front.len() - 1 implies !very_deep(
                #[trigger] entries[i],
            ) by {
                assert(!very_deep(d[i]));
            }
        } else {
            assert forall|i: int| 0 <= i < n implies !very_deep(#[trigger] entries[i]) by {
                assert(!very_deep(d[i]));
            }
        }
    }
}

/// Whether the path of the entry has a part `..`.
pub open spec fn leads_up(e: TreeEntryView) -> bool {
    exists|k: int|
        0 <= k < text::split(e.path, '/').len() && #[trigger] text::split(e.path, '/')[k] == ".."@
}

/// A backup is restored entry by entry, each by its kind, up to the first whose path leads upwards or
/// that is a directory that lies too deep; it is restored to the end exactly if there is none.
pub proof fn lemma_tree_restored(entries: Seq<TreeEntryView>)
    requires
        entries.len() <= usize::MAX,
    ensures
        ({
            let (actions, failure) = transaction::restored_tree(entries);
            &&& failure is Some == (exists|i: int|
                0 <= i < entries.len() && (very_deep(#[trigger] entries[i]) || leads_up(
                    entries[i],
                )))
            &&& actions.len() <= entries.len()
            &&& failure is None ==> actions.len() == entries.len()
            &&& forall|i: int|
                0 <= i < actions.len() ==> #[trigger] actions[i] == made_for(entries[i], i)
                    && !leads_up(entries[i])
        }),
    decreases entries.len(),
{
    if entries.len() > 0 {
        let d = entries.drop_last();
        let n = entries.len() - 1;
        let last = entries[n];
        lemma_tree_restored(d);
        assert(forall|i: int| 0 <= i < d.len() ==> #[trigger] d[i] == entries[i]);
        assert(very_deep(last) == transaction::too_deep(last));
        let pieces = text::split(last.path, '/');
        if pieces.contains(".."@) {
            let k = choose|k: int| 0 <= k < pieces.len() && pieces[k] == ".."@;
            assert(pieces[k] == ".."@);
        }
        if leads_up(last) {
            let k = choose|k: int| 0 <= k < pieces.len() && #[trigger] pieces[k] == ".."@;
            assert(pieces.contains(pieces[k]));
        }
        let (front, failure) = transaction::restored_tree(d);
        if failure is Some {
            let i = choose|i: int|
                0 <= i < d.len() && (very_deep(#[trigger] d[i]) || leads_up(d[i]));
            assert(very_deep(entries[i]) || leads_up(entries[i]));
        } else {
            assert forall|i: int| 0 <= i < n implies !very_deep(#[trigger] entries[i]) && !leads_up(
                entries[i],
            ) by {
                assert(!very_deep(d[i]) && !leads_up(d[i]));
            }
        }
        assert(transaction::tree_action(last.kind, n as usize) == made_for(last, n));
        let actions = transaction::restored_tree(entries).0;
        assert forall|i: int| 0 <= i < actions.len() implies #[trigger] actions[i] == made_for(
            entries[i],
            i,
        ) && !leads_up(entries[i]) by {
            if i < front.len() {
                assert(front[i] == made_for(d[i], i) && !leads_up(d[i]));
                assert(actions[i] == front[i]);
            }
        }
    }
}

/// The files of a tree are the paths of its entries that are no directories, in order and with `/` as
/// separator; they cannot be listed exactly if some directory lies too deep.
pub proof fn lemma_files_listed(entries: Seq<TreeEntryView>, i: int)
    requires
        0 <= i < entries.len(),
    ensures
        transaction::relative_files(entries) is Err == (exists|k: int|
            0 <= k < entries.len() && very_deep(#[trigger] entries[k])),
        transaction::relative_files(entries) matches Ok(files) ==> {
            let at = entries.take(i).filter(no_directory()).len() as int;
            &&& files.len() == entries.filter(no_directory()).len()
            &&& entries[i].kind != EntryKind::Directory ==> at < files.len() && files[at]
                == text::replaced(entries[i].path, '\\', '/')
        },
    decreases entries.len(),
{
    reveal(Seq::filter);
    let d = entries.drop_last();
    let n = entries.len() - 1;
    assert(forall|k: int| 0 <= k < d.len() ==> #[trigger] d[k] == entries[k]);
    assert(very_deep(entries[n]) == transaction::too_deep(entries[n]));
    if d.len() > 0 {
        lemma_files_listed(d, if i < n {
            i
        } else {
            0
        });
        if transaction::relative_files(d) is Err {
            let k = choose|k: int| 0 <= k < d.len() && very_deep(#[trigger] d[k]);
            assert(very_deep(entries[k]));
        } else {
            assert forall|k: int| 0 <= k < n implies !very_deep(#[trigger] entries[k]) by {
                assert(!very_deep(d[k]));
            }
        }
    }
    if d.len() == 0 {
        assert(d.filter(no_directory()).len() == 0);
        assert(transaction::relative_files(d)->Ok_0.len() == 0);
    }
    if i < n {
        assert(d.take(i) =~= entries.take(i));
    } else {
        assert(entries.take(n) =~= d);
    }
}

/// Whether an entry is no directory.
pub open spec fn no_directory() -> spec_fn(TreeEntryView) -> bool {
    |e: TreeEntryView| e.kind != EntryKind::Directory
}

/// A package has a link in the prefix for each of its files below `bin/` and `share/man/` and for no
/// other, at the path of the file, to the file in the package directory.
pub proof fn lemma_package_links(dir: Text, files: Seq<Text>, file: Text, target: Text)
    ensures
        transaction::package_links(dir, files).contains((file, target)) == (files.contains(file)
            && target == "pkgs/"@ + dir + "/"@ + file && (starts(file, "bin/"@) || starts(
            file,
            "share/man/"@,
        ))),
{
    let chosen = files.filter(transaction::linked());
    let links = transaction::package_links(dir, files);
    lists::lemma_filter(files, transaction::linked());
    lemma_starts(file, "bin/"@);
    lemma_starts(file, "share/man/"@);
    if links.contains((file, target)) {
        let i = choose|i: int| 0 <= i < links.len() && links[i] == (file, target);
        assert(chosen.contains(chosen[i]));
        assert(chosen[i] == file);
    }
    if chosen.contains(file) {
        let i = choose|i: int| 0 <= i < chosen.len() && chosen[i] == file;
        assert(links[i] == (file, "pkgs/"@ + dir + "/"@ + file));
    }
}

/// Whether the text begins with another.
pub open spec fn starts(s: Text, beginning: Text) -> bool {
    s.len() >= beginning.len() && forall|i: int|
        0 <= i < beginning.len() ==> #[trigger] s[i] == beginning[i]
}

proof fn lemma_starts(s: Text, beginning: Text)
    ensures
        starts(s, beginning) == beginning.is_prefix_of(s),
{
    if beginning.is_prefix_of(s) {
        let part = s.subrange(0, beginning.len() as int);
        assert forall|i: int| 0 <= i < beginning.len() implies #[trigger] s[i] == beginning[i] by {
            assert(part[i] == s[i]);
        }
    }
    if starts(s, beginning) {
        assert(beginning =~= s.subrange(0, beginning.len() as int));
    }
}

/// Whether a flag is set.
pub open spec fn is_set() -> spec_fn(bool) -> bool {
    |flag: bool| flag
}

/// A rollback deletes the directory of a step exactly if its package began to be copied, in the order
/// of the steps.
pub proof fn lemma_rollback_dirs(steps: Seq<PlanStepView>, copied: Seq<bool>, i: int)
    requires
        0 <= i < steps.len(),
        steps.len() <= copied.len(),
    ensures
        transaction::rollback_dirs(steps, copied).len() == copied.take(steps.len() as int).filter(
            is_set(),
        ).len(),
        copied[i] ==> ({
            let at = copied.take(i).filter(is_set()).len() as int;
            let dirs = transaction::rollback_dirs(steps, copied);
            at < dirs.len() && dirs[at] == steps[i].name + "-"@ + steps[i].version
        }),
    decreases steps.len(),
{
    reveal(Seq::filter);
    let d = steps.drop_last();
    let n = steps.len() - 1;
    assert(forall|k: int| 0 <= k < d.len() ==> #[trigger] d[k] == steps[k]);
    assert(copied.take(n + 1).drop_last() =~= copied.take(n));
    assert(copied.take(n + 1).last() == copied[n]);
    if d.len() > 0 {
        lemma_rollback_dirs(d, copied, if i < n {
            i
        } else {
            0
        });
    } else {
        assert(copied.take(0) =~= Seq::empty());
        assert(copied.take(0).filter(is_set()).len() == 0);
        assert(transaction::rollback_dirs(d, copied).len() == 0);
    }
}

/// Only a status from 200 to 299 means success.
pub proof fn lemma_status(status: u16)
    ensures
        fetch::status_outcome(status) is Ok == (status / 100 == 2),
{
}

/// The first part of a path is what stands before its first separator.
proof fn lemma_first_part(first: Text, rest: Text)
    requires
        first.len() > 0,
        first != "."@,
        forall|k: int| 0 <= k < first.len() ==> #[trigger] first[k] != '/',
    ensures
        paths::parts(first + "/"@ + rest).len() > 0,
        paths::parts(first + "/"@ + rest)[0] == first,
{
    value_laws::lemma_appended(first, rest);
    value_laws::lemma_one_piece(first);
    let one = seq![first];
    assert forall|i: int, k: int|
        0 <= i < one.len() && 0 <= k < one[i].len() implies #[trigger] one[i][k] != '/' by {
        assert(one[i][k] == first[k]);
    }
    text_laws::lemma_split_of_pieces(one, '/');
    text_laws::lemma_joined(Seq::empty(), Seq::empty(), first, seq!['/']);
    assert(text::split(first, '/')[0] == first);
    assert(first[0] != '/');
    assert(paths::beginning(first) =~= Seq::empty());
    assert(paths::parts(first) =~= one);
}

/// A package in a directory under `pkgs` has what lies there, and of what lies in `bin` or
/// `share/man` the links that point there. Nothing else is part of it.
pub proof fn lemma_belongs(dir: Text, rest: Text, x: Text, target: Text)
    requires
        dir.len() > 0,
    ensures
        transaction::belongs(dir, "pkgs/"@ + dir + "/"@ + rest, None),
        transaction::belongs(dir, "bin/"@ + x, Some("pkgs/"@ + dir + "/"@ + rest)),
        transaction::belongs(dir, "share/man/"@ + x, Some("pkgs/"@ + dir + "/"@ + rest)),
        !transaction::belongs(dir, "bin/"@ + x, None),
        !transaction::belongs(dir, "share/"@ + x, None),
        !transaction::belongs(dir, "bin/"@ + x, Some("bin/"@ + target)),
        !transaction::belongs(dir, "lib/"@ + x, Some(target)),
        !transaction::belongs(dir, "var/"@ + x, Some(target)),
{
    reveal_strlit("/");
    reveal_strlit(".");
    reveal_strlit("pkgs/");
    reveal_strlit("pkgs");
    reveal_strlit("bin/");
    reveal_strlit("bin");
    reveal_strlit("share/");
    reveal_strlit("share");
    reveal_strlit("share/man/");
    reveal_strlit("lib/");
    reveal_strlit("lib");
    reveal_strlit("var/");
    reveal_strlit("var");
    let base = "pkgs/"@ + dir;
    paths::lemma_below(base, rest);
    lemma_first_part("pkgs"@, dir);
    assert("pkgs"@ + "/"@ + dir =~= base);
    lemma_first_part("bin"@, x);
    assert("bin"@ + "/"@ + x =~= "bin/"@ + x);
    lemma_first_part("bin"@, target);
    assert("bin"@ + "/"@ + target =~= "bin/"@ + target);
    lemma_first_part("share"@, x);
    assert("share"@ + "/"@ + x =~= "share/"@ + x);
    lemma_first_part("lib"@, x);
    assert("lib"@ + "/"@ + x =~= "lib/"@ + x);
    lemma_first_part("var"@, x);
    assert("var"@ + "/"@ + x =~= "var/"@ + x);
    assert("pkgs"@.len() == 4 && "bin"@.len() == 3 && "share"@.len() == 5 && "lib"@.len() == 3
        && "var"@.len() == 3);
    lemma_not_in("bin/"@ + x, base);
    lemma_not_in("bin/"@ + target, base);
    lemma_not_in("share/"@ + x, base);
    lemma_not_in("lib/"@ + x, base);
    lemma_not_in("var/"@ + x, base);
    lemma_starts("bin/"@ + x, "bin/"@);
    lemma_starts("share/man/"@ + x, "share/man/"@);
    lemma_starts("lib/"@ + x, "bin/"@);
    lemma_starts("lib/"@ + x, "share/man/"@);
    lemma_starts("var/"@ + x, "bin/"@);
    lemma_starts("var/"@ + x, "share/man/"@);
    assert(("lib/"@ + x)[0] == 'l' && ("var/"@ + x)[0] == 'v');
    assert("bin/"@[0] == 'b' && "share/man/"@[0] == 's');
}

proof fn lemma_not_in(path: Text, base: Text)
    requires
        paths::parts(path).len() > 0,
        paths::parts(base).len() > 0,
        paths::parts(path)[0] != paths::parts(base)[0],
    ensures
        !paths::lies_in(path, base),
{
    let a = paths::parts(path);
    let b = paths::parts(base);
    if b.is_prefix_of(a) {
        assert(a.subrange(0, b.len() as int)[0] == a[0]);
    }
}

/// What went wrong is said in words that tell where: in a fetch, in staging, and with what.
pub proof fn lemma_error_words(s: Text, a: Text, b: Text)
    ensures
        fetch::error_text(FetchErrorView::Io(s)) == "fetch io: "@ + s,
        fetch::error_text(FetchErrorView::Http(s)) == "fetch http: "@ + s,
        fetch::error_text((FetchErrorView::HashMismatch { expected: a, computed: b }))
            == "hash mismatch: expected "@ + a + " got "@ + b,
        fetch::error_text(FetchErrorView::UnsupportedSourceType(s)) == "unsupported source type: "@
            + s,
        stage::error_text(StageErrorView::Fetch(FetchErrorView::Io(s))) == "stage fetch: "@ + (
        "fetch io: "@ + s),
        stage::error_text(StageErrorView::Extract(s)) == "stage extract: "@ + s,
        stage::error_text(StageErrorView::Copy(s)) == "stage copy: "@ + s,
        stage::error_text(StageErrorView::Io(s)) == "stage io: "@ + s,
        stage::error_text(StageErrorView::Path(s)) == "stage path: "@ + s,
        transaction::rollback_label(None) == "rolled_back"@,
        transaction::rollback_label(Some(s)) == "rolled_back"@ + " reason="@ + s,
        fetch::progress_text(a, None) == "fetch: "@ + a + "\r"@,
{
    reveal_strlit("rolled_back");
    reveal_strlit(" reason=");
    reveal_strlit("rolled_back reason=");
    assert("rolled_back"@ + " reason="@ =~= "rolled_back reason="@);
}

/// Whether a step can be recorded: it is a removal, or its directory is safe and its staged tree, if
/// there is one, has no directory that lies too deep.
pub open spec fn recordable(step: PlanStepView, tree: Option<Seq<TreeEntryView>>) -> bool {
    step.action == PlanAction::Remove || (transaction::dir_name(step) is Ok && (tree matches Some(
        entries,
    ) ==> forall|k: int| 0 <= k < entries.len() ==> !very_deep(#[trigger] entries[k])))
}

/// The new database can be computed exactly if all steps can be recorded.
pub proof fn lemma_steps_recorded(
    current: Seq<InstalledEntryView>,
    steps: Seq<PlanStepView>,
    trees: Seq<Option<Seq<TreeEntryView>>>,
)
    ensures
        transaction::new_entries(current, steps, trees) is Ok == (forall|i: int|
            0 <= i < steps.len() ==> recordable(#[trigger] steps[i], trees[i])),
    decreases steps.len(),
{
    if steps.len() > 0 {
        let d = steps.drop_last();
        let n = steps.len() - 1;
        lemma_steps_recorded(current, d, trees);
        assert(forall|i: int| 0 <= i < d.len() ==> #[trigger] d[i] == steps[i]);
        if let Some(entries) = trees[n] {
            if entries.len() > 0 {
                lemma_files_listed(entries, 0);
            }
        }
        if forall|i: int| 0 <= i < d.len() ==> recordable(#[trigger] d[i], trees[i]) {
            assert forall|i: int| 0 <= i < n implies recordable(#[trigger] steps[i], trees[i]) by {
                assert(recordable(d[i], trees[i]));
            }
        } else {
            let i = choose|i: int| 0 <= i < d.len() && !recordable(#[trigger] d[i], trees[i]);
            assert(!recordable(steps[i], trees[i]));
        }
        assert(transaction::new_entries(current, steps, trees) is Ok == (transaction::new_entries(
            current,
            d,
            trees,
        ) is Ok && recordable(steps[n], trees[n])));
    }
}

/// After a plan the database has, for the last step of a package, nothing if it was a removal. Else it
/// has the package with the version and the revision of the step, installed under `pkgs`, with the
/// files that were staged for it.
pub proof fn lemma_entry_recorded(
    current: Seq<InstalledEntryView>,
    steps: Seq<PlanStepView>,
    trees: Seq<Option<Seq<TreeEntryView>>>,
    i: int,
)
    requires
        transaction::new_entries(current, steps, trees) is Ok,
        0 <= i < steps.len(),
        forall|j: int| i < j < steps.len() ==> (#[trigger] steps[j]).name != steps[i].name,
    ensures
        ({
            let after = crate::table::values(transaction::new_entries(current, steps, trees)->Ok_0);
            let entry = installed::entry_of(after, steps[i].name);
            &&& steps[i].action == PlanAction::Remove ==> entry is None
            &&& steps[i].action != PlanAction::Remove ==> (entry matches Some(e) && {
                &&& e.name == steps[i].name
                &&& e.version == steps[i].version
                &&& e.revision == steps[i].revision
                &&& e.install_path == "pkgs/"@ + (steps[i].name + "-"@ + steps[i].version)
                &&& e.file_checksums.len() == 0
                &&& trees[i] is None ==> e.files.len() == 0
                &&& trees[i] matches Some(entries) ==> transaction::relative_files(entries)
                    == Ok::<_, Text>(e.files)
            })
        }),
{
    lemma_steps_recorded(current, steps, trees);
    transaction::lemma_step_recorded(current, steps, trees, i);
    let after = crate::table::values(transaction::new_entries(current, steps, trees)->Ok_0);
    installed::lemma_entry_of(after, steps[i].name);
    assert(recordable(steps[i], trees[i]));
    if let Some(entries) = trees[i] {
        if entries.len() > 0 {
            lemma_files_listed(entries, 0);
        }
    }
}

/// A rollback first deletes the packages that began to be copied, in order. Then it restores the
/// database, if that was backed up, and then the backups of files and links; at the end it removes
/// these and the staging directory.
pub proof fn lemma_rollback_actions(
    steps: Seq<PlanStepView>,
    copied: Seq<bool>,
    saved: bool,
    i: int,
)
    ensures
        ({
            let actions = transaction::rollback_actions(steps, copied, saved);
            let dirs = transaction::rollback_dirs(steps, copied);
            let n = dirs.len() as int;
            let m = actions.len() as int;
            &&& m == n + 3 + if saved {
                1int
            } else {
                0
            }
            &&& 0 <= i < n ==> actions[i] == (transaction::RollbackActionView::DeletePackage {
                dir_name: dirs[i],
            })
            &&& saved ==> actions[n] == transaction::RollbackActionView::RestoreDatabase
            &&& actions[m - 3] == transaction::RollbackActionView::RestoreBackups
            &&& actions[m - 2] == transaction::RollbackActionView::RemoveBackups
            &&& actions[m - 1] == transaction::RollbackActionView::RemoveStaging
        }),
{
}

/// The links that point into a directory are exactly those whose target lies in it.
pub proof fn lemma_links_into(links: Seq<(Text, Text)>, dir: Text, path: Text, target: Text)
    ensures
        links.filter(transaction::points_into(dir)).contains((path, target)) == (links.contains(
            (path, target),
        ) && paths::lies_in(target, dir)),
{
    lists::lemma_filter(links, transaction::points_into(dir));
}

/// Something is part of a package in one of several directories exactly if it is part of one in some
/// of the first or in some of the others.
pub proof fn lemma_belongs_to_any(
    a: Seq<Text>,
    b: Seq<Text>,
    dir: Text,
    path: Text,
    target: Option<Text>,
)
    ensures
        !transaction::belongs_to_any(Seq::empty(), path, target),
        transaction::belongs_to_any(seq![dir], path, target) == transaction::belongs(
            dir,
            path,
            target,
        ),
        transaction::belongs_to_any(a + b, path, target) == (transaction::belongs_to_any(
            a,
            path,
            target,
        ) || transaction::belongs_to_any(b, path, target)),
{
    let one = seq![dir];
    if transaction::belongs(dir, path, target) {
        assert(transaction::belongs(one[0], path, target));
    }
    let all = a + b;
    if transaction::belongs_to_any(a, path, target) {
        let i = choose|i: int|
            0 <= i < a.len() && transaction::belongs(#[trigger] a[i], path, target);
        assert(transaction::belongs(all[i], path, target));
    }
    if transaction::belongs_to_any(b, path, target) {
        let i = choose|i: int|
            0 <= i < b.len() && transaction::belongs(#[trigger] b[i], path, target);
        assert(transaction::belongs(all[a.len() + i], path, target));
    }
    if transaction::belongs_to_any(all, path, target) {
        let i = choose|i: int|
            0 <= i < all.len() && transaction::belongs(#[trigger] all[i], path, target);
        if i < a.len() {
            assert(transaction::belongs(a[i], path, target));
        } else {
            assert(transaction::belongs(b[i - a.len()], path, target));
        }
    }
}

} // verus!
