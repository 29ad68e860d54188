//! Fetch package sources to cache with hash verification.
//!
//! What is decided about a fetch stands here: whether a cached artifact serves, where the artifact
//! comes from, whether it is what the source says, and when progress is reported. The caller reads,
//! copies and downloads, and reports back.

use sha2::Digest;

use vstd::prelude::*;
use vstd::string::*;

use crate::source::{Source, SourceHash, SourceHashView, SourceView};
use crate::storage::cache;
use crate::text;
use crate::text::Text;
use crate::views;

verus! {

/// Minimum bytes between progress updates.
pub const PROGRESS_THROTTLE_BYTES: u64 = 65536;

/// Minimum interval between progress updates.
pub const PROGRESS_THROTTLE_MS: u64 = 100;

/// How far a download is.
#[derive(Clone, Copy, Debug, Eq, PartialEq, Structural)]
pub struct Progress {
    /// Bytes written so far.
    pub written: u64,
    /// Bytes written at the last report.
    pub last_reported: u64,
}

/// Whether progress is reported after so many bytes or so much time since the last report.
pub open spec fn reports(p: Progress, elapsed_ms: u64) -> bool {
    p.written - p.last_reported >= PROGRESS_THROTTLE_BYTES || elapsed_ms >= PROGRESS_THROTTLE_MS
}

impl Progress {
    /// The progress of a download that begins.
    pub fn new() -> (r: Self)
        ensures
            r == (Progress { written: 0, last_reported: 0 }),
    {
        Progress { written: 0, last_reported: 0 }
    }

    /// Takes note of `n` more bytes. Throttles updates to avoid flooding the terminal: returns
    /// whether to report now, given the milliseconds since the last report.
    pub fn advance(&mut self, n: u64, elapsed_ms: u64) -> (r: bool)
        requires
            old(self).written + n <= u64::MAX,
        ensures
            ({
                let moved = Progress { written: (old(self).written + n) as u64, ..*old(self) };
                &&& r == reports(moved, elapsed_ms)
                &&& *final(self) == if r {
                    Progress { last_reported: moved.written, ..moved }
                } else {
                    moved
                }
            }),
    {
        self.written = self.written + n;
        let since: u64 = if self.written > self.last_reported {
            self.written - self.last_reported
        } else {
            0
        };
        if since >= PROGRESS_THROTTLE_BYTES || elapsed_ms >= PROGRESS_THROTTLE_MS {
            self.last_reported = self.written;
            true
        } else {
            false
        }
    }
}

/// How many hundredths of `total` are `downloaded`; 0 of nothing.
pub open spec fn percent_of(downloaded: u64, total: u64) -> int {
    if total == 0 {
        0
    } else {
        downloaded * 100 / total as int
    }
}

/// The percentage of a download.
pub fn percent(downloaded: u64, total: u64) -> (r: u64)
    requires
        downloaded * 100 <= u64::MAX,
    ensures
        r == percent_of(downloaded, total),
{
    if total == 0 {
        0
    } else {
        downloaded * 100 / total
    }
}

/// The line that shows the progress of a download, from the amounts in words.
pub open spec fn progress_text(downloaded: Text, total: Option<(Text, nat)>) -> Text {
    match total {
        Some((total, percent)) => "fetch: "@ + downloaded + " / "@ + total + " ("@ + text::decimal(
            percent,
        ) + "%)\r"@,
        None => "fetch: "@ + downloaded + "\r"@,
    }
}

/// The line that shows the progress of a download, from the amounts in words and the percentage.
pub fn progress_line(downloaded: &str, total: Option<(&str, u64)>) -> (r: String)
    ensures
        r@ == progress_text(
            downloaded@,
            match total {
                Some((t, p)) => Some((t@, p as nat)),
                None => None,
            },
        ),
{
    match total {
        Some((total, percent)) => "fetch: ".to_owned().concat(downloaded).concat(" / ").concat(
            total,
        ).concat(" (").concat(text::decimal_text(percent).as_str()).concat("%)\r"),
        None => "fetch: ".to_owned().concat(downloaded).concat("\r"),
    }
}

/// Errors from fetch or hash verification.
#[derive(Debug, Eq, PartialEq)]
pub enum FetchError {
    Io(String),
    Http(String),
    HashMismatch { expected: String, computed: String },
    UnsupportedSourceType(String),
}

/// What a [`FetchError`] holds.
pub enum FetchErrorView {
    Io(Text),
    Http(Text),
    HashMismatch { expected: Text, computed: Text },
    UnsupportedSourceType(Text),
}

impl DeepView for FetchError {
    type V = FetchErrorView;

    open spec fn deep_view(&self) -> FetchErrorView {
        match self {
            FetchError::Io(s) => FetchErrorView::Io(s@),
            FetchError::Http(s) => FetchErrorView::Http(s@),
            FetchError::HashMismatch { expected, computed } => FetchErrorView::HashMismatch {
                expected: expected@,
                computed: computed@,
            },
            FetchError::UnsupportedSourceType(s) => FetchErrorView::UnsupportedSourceType(s@),
        }
    }
}

impl View for FetchError {
    type V = FetchErrorView;

    open spec fn view(&self) -> FetchErrorView {
        self.deep_view()
    }
}

impl Clone for FetchError {
    fn clone(&self) -> (r: Self)
        ensures
            r@ == self@,
    {
        match self {
            FetchError::Io(s) => FetchError::Io(s.clone()),
            FetchError::Http(s) => FetchError::Http(s.clone()),
            FetchError::HashMismatch { expected, computed } => FetchError::HashMismatch {
                expected: expected.clone(),
                computed: computed.clone(),
            },
            FetchError::UnsupportedSourceType(s) => FetchError::UnsupportedSourceType(s.clone()),
        }
    }
}

/// The words for a [`FetchError`].
pub open spec fn error_text(e: FetchErrorView) -> Text {
    match e {
        FetchErrorView::Io(s) => "fetch io: "@ + s,
        FetchErrorView::Http(s) => "fetch http: "@ + s,
        FetchErrorView::HashMismatch { expected, computed } => "hash mismatch: expected "@ + expected
            + " got "@ + computed,
        FetchErrorView::UnsupportedSourceType(s) => "unsupported source type: "@ + s,
    }
}

impl FetchError {
    /// The error in words.
    pub fn to_string(&self) -> (r: String)
        ensures
            r@ == error_text(self@),
    {
        match self {
            FetchError::Io(s) => "fetch io: ".to_owned().concat(s.as_str()),
            FetchError::Http(s) => "fetch http: ".to_owned().concat(s.as_str()),
            FetchError::HashMismatch { expected, computed } =>
                "hash mismatch: expected ".to_owned().concat(expected.as_str()).concat(
                " got ",
            ).concat(computed.as_str()),
            FetchError::UnsupportedSourceType(s) => "unsupported source type: ".to_owned().concat(
                s.as_str(),
            ),
        }
    }
}

/// The SHA-512 digest of the bytes.
pub uninterp spec fn sha512(data: Seq<u8>) -> Seq<u8>;

/// `sha2::Sha512::digest`: the SHA-512 digest of the bytes, named [`sha512`], of 64 bytes.
#[verifier::external_body]
pub(crate) fn sha512_digest(data: &[u8]) -> (r: Vec<u8>)
    ensures
        r@ == sha512(data@),
        r@.len() == 64,
{
    sha2::Sha512::digest(data).to_vec()
}

/// What came of reading a file.
#[derive(Debug)]
pub enum FileBytes {
    /// It could not be opened, with the reason.
    Unopened(String),
    /// It could not be read, with the reason.
    Unread(String),
    /// Its contents.
    Contents(Vec<u8>),
}

/// What a [`FileBytes`] holds.
pub enum FileBytesView {
    Unopened(Text),
    Unread(Text),
    Contents(Seq<u8>),
}

impl DeepView for FileBytes {
    type V = FileBytesView;

    open spec fn deep_view(&self) -> FileBytesView {
        match self {
            FileBytes::Unopened(e) => FileBytesView::Unopened(e@),
            FileBytes::Unread(e) => FileBytesView::Unread(e@),
            FileBytes::Contents(bytes) => FileBytesView::Contents(bytes@),
        }
    }
}

impl View for FileBytes {
    type V = FileBytesView;

    open spec fn view(&self) -> FileBytesView {
        self.deep_view()
    }
}

/// The digest of the bytes by the algorithm, if that is known.
pub open spec fn digest(algorithm: Text, data: Seq<u8>) -> Option<Seq<u8>> {
    if text::lowered(algorithm) == "sha256"@ {
        Some(cache::sha256(data))
    } else if text::lowered(algorithm) == "sha512"@ {
        Some(sha512(data))
    } else {
        None
    }
}

/// The hash of a file by the algorithm, as hexadecimal text.
pub open spec fn file_hash(file: FileBytesView, algorithm: Text) -> Result<Text, FetchErrorView> {
    match file {
        FileBytesView::Unopened(e) => Err(FetchErrorView::Io(e)),
        FileBytesView::Unread(e) => if digest(algorithm, Seq::empty()) is Some {
            Err(FetchErrorView::Io(e))
        } else {
            Err(FetchErrorView::UnsupportedSourceType(algorithm))
        },
        FileBytesView::Contents(bytes) => match digest(algorithm, bytes) {
            Some(d) => Ok(text::hex(d)),
            None => Err(FetchErrorView::UnsupportedSourceType(algorithm)),
        },
    }
}

/// Whether the computed hash is the expected one.
pub open spec fn hash_matches(computed: Text, expected: SourceHashView) -> Result<
    (),
    FetchErrorView,
> {
    if computed == expected.hex {
        Ok(())
    } else {
        Err(FetchErrorView::HashMismatch { expected: expected.hex, computed })
    }
}

/// Whether a file has the expected hash.
pub open spec fn file_verified(file: FileBytesView, expected: SourceHashView) -> Result<
    (),
    FetchErrorView,
> {
    match file_hash(file, expected.algorithm) {
        Ok(computed) => hash_matches(computed, expected),
        Err(e) => Err(e),
    }
}

/// Computes the digest of a file using the given algorithm ("sha256" or "sha512").
/// Returns the hex-encoded digest (lowercase).
pub fn compute_file_hash(file: &FileBytes, algorithm: &str) -> (r: Result<String, FetchError>)
    ensures
        views::result_view(r) == file_hash(file@, algorithm@),
        r matches Ok(hash) ==> hash@.len() == if text::lowered(algorithm@) == "sha256"@ {
            64int
        } else {
            128int
        },
        r matches Ok(hash) ==> forall|i: int|
            0 <= i < hash@.len() ==> text::is_lower_hex(#[trigger] hash@[i]),
{
    let known = text::to_lowercase(algorithm);
    let is_256 = text::same_text(known.as_str(), "sha256");
    let is_512 = text::same_text(known.as_str(), "sha512");
    match file {
        FileBytes::Unopened(e) => Err(FetchError::Io(e.clone())),
        FileBytes::Unread(e) => {
            if is_256 || is_512 {
                Err(FetchError::Io(e.clone()))
            } else {
                Err(FetchError::UnsupportedSourceType(algorithm.to_owned()))
            }
        },
        FileBytes::Contents(bytes) => {
            if is_256 {
                let digest = cache::sha256_digest(bytes.as_slice());
                proof {
                    text::lemma_hex(digest@);
                }
                Ok(text::hex_text(&digest))
            } else if is_512 {
                let digest = sha512_digest(bytes.as_slice());
                proof {
                    text::lemma_hex(digest@);
                }
                Ok(text::hex_text(&digest))
            } else {
                Err(FetchError::UnsupportedSourceType(algorithm.to_owned()))
            }
        },
    }
}

/// Whether the computed hash is the expected one.
pub fn check_hash(computed: String, expected: &SourceHash) -> (r: Result<(), FetchError>)
    ensures
        views::result_view(r) == hash_matches(computed@, expected@),
{
    if text::same_text(computed.as_str(), expected.hex.as_str()) {
        Ok(())
    } else {
        Err(FetchError::HashMismatch { expected: expected.hex.clone(), computed })
    }
}

/// Verifies that the file has the digest given by `expected`.
/// Returns `Ok(())` if it matches, `Err(FetchError::HashMismatch)` otherwise.
pub fn verify_file_hash(file: &FileBytes, expected: &SourceHash) -> (r: Result<(), FetchError>)
    ensures
        views::result_view(r) == file_verified(file@, expected@),
{
    match compute_file_hash(file, expected.algorithm.as_str()) {
        Ok(computed) => check_hash(computed, expected),
        Err(e) => Err(e),
    }
}

/// What stands at the cache path.
#[derive(Debug)]
pub enum Cached {
    Nothing,
    /// A file.
    File(FileBytes),
    /// Something that is not a file.
    NotFile,
}

/// What a [`Cached`] holds.
pub enum CachedView {
    Nothing,
    File(FileBytesView),
    NotFile,
}

impl DeepView for Cached {
    type V = CachedView;

    open spec fn deep_view(&self) -> CachedView {
        match self {
            Cached::Nothing => CachedView::Nothing,
            Cached::File(file) => CachedView::File(file@),
            Cached::NotFile => CachedView::NotFile,
        }
    }
}

/// What happened in the course of a fetch.
#[derive(Debug)]
pub enum FetchEvent {
    /// The cache path was looked at.
    Looked(Cached),
    /// What stood at the cache path was removed, as far as that was possible.
    Removed,
    /// The directory of the cache entry was made, or could not be.
    Prepared(Result<(), String>),
    /// The file of a `file://` URL was copied to the temporary path; it is no file, or it could not
    /// be copied.
    Copied(CopyOutcome),
    /// The URL was downloaded to the temporary path, or could not be.
    Downloaded(Result<(), FetchError>),
    /// The file at the temporary path was read.
    Read(FileBytes),
    /// The temporary file was removed, as far as that was possible; the failure that caused it.
    TempRemoved(FetchError),
    /// The temporary file was moved to the cache path, or could not be.
    Published(Result<(), String>),
}

/// What came of copying a local file.
#[derive(Debug)]
pub enum CopyOutcome {
    NotFile,
    Failed(String),
    Copied,
}

/// What a [`CopyOutcome`] holds.
pub enum CopyOutcomeView {
    NotFile,
    Failed(Text),
    Copied,
}

/// What a [`FetchEvent`] holds.
pub enum FetchEventView {
    Looked(CachedView),
    Removed,
    Prepared(Result<(), Text>),
    Copied(CopyOutcomeView),
    Downloaded(Result<(), FetchErrorView>),
    Read(FileBytesView),
    TempRemoved(FetchErrorView),
    Published(Result<(), Text>),
}

impl DeepView for CopyOutcome {
    type V = CopyOutcomeView;

    open spec fn deep_view(&self) -> CopyOutcomeView {
        match self {
            CopyOutcome::NotFile => CopyOutcomeView::NotFile,
            CopyOutcome::Failed(e) => CopyOutcomeView::Failed(e@),
            CopyOutcome::Copied => CopyOutcomeView::Copied,
        }
    }
}

impl DeepView for FetchEvent {
    type V = FetchEventView;

    open spec fn deep_view(&self) -> FetchEventView {
        match self {
            FetchEvent::Looked(cached) => FetchEventView::Looked(cached.deep_view()),
            FetchEvent::Removed => FetchEventView::Removed,
            FetchEvent::Prepared(r) => FetchEventView::Prepared(views::result_view(*r)),
            FetchEvent::Copied(outcome) => FetchEventView::Copied(outcome.deep_view()),
            FetchEvent::Downloaded(r) => FetchEventView::Downloaded(views::result_view(*r)),
            FetchEvent::Read(file) => FetchEventView::Read(file@),
            FetchEvent::TempRemoved(e) => FetchEventView::TempRemoved(e@),
            FetchEvent::Published(r) => FetchEventView::Published(views::result_view(*r)),
        }
    }
}

/// What to do next in the course of a fetch.
#[derive(Debug, Eq, PartialEq)]
pub enum FetchAction {
    /// Look at the cache path.
    Look,
    /// The cached artifact serves: the fetch is done.
    UseCached,
    /// Remove the file at the cache path.
    RemoveCachedFile,
    /// Remove the directory at the cache path.
    RemoveCachedDir,
    /// Make the directory of the cache entry.
    Prepare,
    /// Copy the local file at the path to the temporary path.
    CopyLocal(String),
    /// Download the URL to the temporary path.
    Download(String),
    /// Read the file at the temporary path.
    ReadTemp,
    /// Remove the file at the temporary path because of the failure.
    RemoveTemp(FetchError),
    /// Move the temporary file to the cache path.
    Publish,
    /// The artifact is in the cache: the fetch is done.
    Done,
    /// The fetch has failed.
    Fail(FetchError),
}

/// What a [`FetchAction`] holds.
pub enum FetchActionView {
    Look,
    UseCached,
    RemoveCachedFile,
    RemoveCachedDir,
    Prepare,
    CopyLocal(Text),
    Download(Text),
    ReadTemp,
    RemoveTemp(FetchErrorView),
    Publish,
    Done,
    Fail(FetchErrorView),
}

impl DeepView for FetchAction {
    type V = FetchActionView;

    open spec fn deep_view(&self) -> FetchActionView {
        match self {
            FetchAction::Look => FetchActionView::Look,
            FetchAction::UseCached => FetchActionView::UseCached,
            FetchAction::RemoveCachedFile => FetchActionView::RemoveCachedFile,
            FetchAction::RemoveCachedDir => FetchActionView::RemoveCachedDir,
            FetchAction::Prepare => FetchActionView::Prepare,
            FetchAction::CopyLocal(path) => FetchActionView::CopyLocal(path@),
            FetchAction::Download(url) => FetchActionView::Download(url@),
            FetchAction::ReadTemp => FetchActionView::ReadTemp,
            FetchAction::RemoveTemp(e) => FetchActionView::RemoveTemp(e@),
            FetchAction::Publish => FetchActionView::Publish,
            FetchAction::Done => FetchActionView::Done,
            FetchAction::Fail(e) => FetchActionView::Fail(e@),
        }
    }
}

impl View for FetchAction {
    type V = FetchActionView;

    open spec fn view(&self) -> FetchActionView {
        self.deep_view()
    }
}

/// `s` without all the occurrences of `pat` that it begins with.
pub open spec fn trimmed_of(s: Text, pat: Text) -> Text
    decreases s.len(),
{
    if pat.len() > 0 && pat.is_prefix_of(s) {
        trimmed_of(s.skip(pat.len() as int), pat)
    } else {
        s
    }
}

/// `s` without all the occurrences of `pat` that it begins with.
fn trim_start_matches<'a>(s: &'a str, pat: &str) -> (r: &'a str)
    ensures
        r@ == trimmed_of(s@, pat@),
    decreases s@.len(),
{
    if pat.is_empty() {
        return s;
    }
    match text::strip_prefix(s, pat) {
        Some(rest) => trim_start_matches(rest, pat),
        None => s,
    }
}

/// How a fetch begins: only tarballs can be fetched.
pub open spec fn fetch_start(source: SourceView) -> FetchActionView {
    if source.kind == "tarball"@ {
        FetchActionView::Look
    } else {
        FetchActionView::Fail(FetchErrorView::UnsupportedSourceType(source.kind))
    }
}

/// How a fetch goes on after an event.
pub open spec fn fetch_next(source: SourceView, event: FetchEventView) -> FetchActionView {
    match event {
        FetchEventView::Looked(CachedView::Nothing) => FetchActionView::Prepare,
        FetchEventView::Looked(CachedView::File(file)) => match file_verified(file, source.hash) {
            Ok(()) => FetchActionView::UseCached,
            Err(_) => FetchActionView::RemoveCachedFile,
        },
        FetchEventView::Looked(CachedView::NotFile) => FetchActionView::RemoveCachedDir,
        FetchEventView::Removed => FetchActionView::Prepare,
        FetchEventView::Prepared(Err(e)) => FetchActionView::Fail(FetchErrorView::Io(e)),
        FetchEventView::Prepared(Ok(())) => if "file://"@.is_prefix_of(source.url) {
            FetchActionView::CopyLocal(trimmed_of(source.url, "file://"@))
        } else {
            FetchActionView::Download(source.url)
        },
        FetchEventView::Copied(CopyOutcomeView::NotFile) => FetchActionView::Fail(
            FetchErrorView::Io("file URL not found or not a file: "@ + source.url),
        ),
        FetchEventView::Copied(CopyOutcomeView::Failed(e)) => FetchActionView::Fail(
            FetchErrorView::Io(e),
        ),
        FetchEventView::Copied(CopyOutcomeView::Copied) => FetchActionView::ReadTemp,
        FetchEventView::Downloaded(Err(e)) => FetchActionView::Fail(e),
        FetchEventView::Downloaded(Ok(())) => FetchActionView::ReadTemp,
        FetchEventView::Read(file) => match file_verified(file, source.hash) {
            Ok(()) => FetchActionView::Publish,
            Err(e) => FetchActionView::RemoveTemp(e),
        },
        FetchEventView::TempRemoved(e) => FetchActionView::Fail(e),
        FetchEventView::Published(Ok(())) => FetchActionView::Done,
        FetchEventView::Published(Err(e)) => FetchActionView::Fail(FetchErrorView::Io(e)),
    }
}

/// Begins to fetch the artifact for `source` into the cache, verifying its hash.
/// If the file already exists at the cache path and the hash matches, that file serves without
/// re-downloading. If the hash does not match, the file is removed and downloaded again.
/// Supports `type = "tarball"` with HTTP/HTTPS URLs or file:// URLs (for fixtures/tests).
pub fn fetch_to_cache(source: &Source) -> (r: FetchAction)
    ensures
        r@ == fetch_start(source@),
{
    if !text::same_text(source.kind.as_str(), "tarball") {
        return FetchAction::Fail(FetchError::UnsupportedSourceType(source.kind.clone()));
    }
    FetchAction::Look
}

/// Goes on with a fetch after an event.
pub fn next_fetch_action(source: &Source, event: FetchEvent) -> (r: FetchAction)
    ensures
        r@ == fetch_next(source@, event.deep_view()),
{
    match event {
        FetchEvent::Looked(Cached::Nothing) => FetchAction::Prepare,
        FetchEvent::Looked(Cached::File(file)) => match verify_file_hash(&file, &source.hash) {
            Ok(()) => FetchAction::UseCached,
            Err(_) => FetchAction::RemoveCachedFile,
        },
        FetchEvent::Looked(Cached::NotFile) => FetchAction::RemoveCachedDir,
        FetchEvent::Removed => FetchAction::Prepare,
        FetchEvent::Prepared(Err(e)) => FetchAction::Fail(FetchError::Io(e)),
        FetchEvent::Prepared(Ok(())) => {
            if text::starts_with(source.url.as_str(), "file://") {
                FetchAction::CopyLocal(
                    trim_start_matches(source.url.as_str(), "file://").to_owned(),
                )
            } else {
                FetchAction::Download(source.url.clone())
            }
        },
        FetchEvent::Copied(CopyOutcome::NotFile) => FetchAction::Fail(
            FetchError::Io(
                "file URL not found or not a file: ".to_owned().concat(source.url.as_str()),
            ),
        ),
        FetchEvent::Copied(CopyOutcome::Failed(e)) => FetchAction::Fail(FetchError::Io(e)),
        FetchEvent::Copied(CopyOutcome::Copied) => FetchAction::ReadTemp,
        FetchEvent::Downloaded(Err(e)) => FetchAction::Fail(e),
        FetchEvent::Downloaded(Ok(())) => FetchAction::ReadTemp,
        FetchEvent::Read(file) => match verify_file_hash(&file, &source.hash) {
            Ok(()) => FetchAction::Publish,
            Err(e) => FetchAction::RemoveTemp(e),
        },
        FetchEvent::TempRemoved(e) => FetchAction::Fail(e),
        FetchEvent::Published(Ok(())) => FetchAction::Done,
        FetchEvent::Published(Err(e)) => FetchAction::Fail(FetchError::Io(e)),
    }
}

/// What the status of a response means: only 200 to 299 is success.
pub open spec fn status_outcome(status: u16) -> Result<(), FetchErrorView> {
    if 200 <= status < 300 {
        Ok(())
    } else {
        Err(FetchErrorView::Http(text::decimal(status as nat) + " "@ + text::decimal(status as nat)))
    }
}

/// What the status of a response means: only 200 to 299 is success.
pub fn check_status(status: u16) -> (r: Result<(), FetchError>)
    ensures
        views::result_view(r) == status_outcome(status),
{
    if 200 <= status && status < 300 {
        return Ok(());
    }
    let code = text::decimal_text(status as u64);
    Err(FetchError::Http(code.clone().concat(" ").concat(code.as_str())))
}

/// The name of a temporary file beside the cached artifact.
pub fn temp_name(id: &str) -> (r: String)
    ensures
        r@ == "artifact."@ + id@ + ".tmp"@,
{
    "artifact.".to_owned().concat(id).concat(".tmp")
}

/// What is said of a fetch along the way.
#[derive(Clone, Copy, Debug, Eq, PartialEq, Structural)]
pub enum FetchNote {
    UsingCache,
    Downloading,
    Verified,
}

/// What is said of a fetch along the way, in words.
pub fn fetch_note(note: FetchNote, source: &Source) -> (r: String)
    ensures
        r@ == match note {
            FetchNote::UsingCache => "fetch: using cache for "@ + source.url@,
            FetchNote::Downloading => "fetch: downloading "@ + source.url@,
            FetchNote::Verified => "fetch: verified "@ + source.hash.algorithm@,
        },
{
    match note {
        FetchNote::UsingCache => "fetch: using cache for ".to_owned().concat(source.url.as_str()),
        FetchNote::Downloading => "fetch: downloading ".to_owned().concat(source.url.as_str()),
        FetchNote::Verified => "fetch: verified ".to_owned().concat(
            source.hash.algorithm.as_str(),
        ),
    }
}

/// An artifact serves from the cache, or is put there, only after its hash was found to be that of
/// the source.
pub proof fn lemma_only_verified_artifacts(source: SourceView, event: FetchEventView)
    ensures
        fetch_next(source, event) == FetchActionView::UseCached ==> (event matches
            FetchEventView::Looked(CachedView::File(file)) && file_verified(file, source.hash)
            is Ok),
        fetch_next(source, event) == FetchActionView::Publish ==> (event matches
            FetchEventView::Read(file) && file_verified(file, source.hash) is Ok),
        fetch_next(source, event) == FetchActionView::Done ==> (event matches
            FetchEventView::Published(r) && r is Ok),
{
}

/// A file is verified exactly when it could be read and its digest is the expected one.
pub proof fn lemma_verified(file: FileBytesView, expected: SourceHashView)
    ensures
        file_verified(file, expected) is Ok <==> (file matches FileBytesView::Contents(bytes)
            && digest(expected.algorithm, bytes) matches Some(d) && text::hex(d) == expected.hex),
{
}

} // verus!
