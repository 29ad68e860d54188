//! Fetching and staging.

use sic::fetch::{
    check_status, compute_file_hash, fetch_note, fetch_to_cache, next_fetch_action, percent,
    progress_line, temp_name, verify_file_hash, Cached, CopyOutcome, FetchAction, FetchError,
    FetchEvent, FetchNote, FileBytes, Progress,
};
use sic::package_name::PackageName;
use sic::resolver::{Plan, PlanAction, PlanStep};
use sic::source::{Source, SourceHash};
use sic::stage::{
    copy_relative_file, has_single_top_dir, parse_pattern, pkg_dir_name, resolve_literal,
    stage_plan, walk_under, CopyKind, CopySource, FilePattern, LiteralFiles, LiteralFound,
    StageError,
};
use sic::transaction::{EntryKind, TreeEntry};
use sic::version::Version;

fn contents(bytes: &[u8]) -> FileBytes {
    FileBytes::Contents(bytes.to_vec())
}

fn source(kind: &str, url: &str, hash: &str) -> Source {
    Source {
        kind: kind.to_string(),
        url: url.to_string(),
        hash: SourceHash::parse(hash).unwrap(),
    }
}

#[test]
fn compute_file_hash_sha256_returns_64_hex_chars() {
    let hex = compute_file_hash(&contents(b"hello\n"), "sha256").unwrap();
    assert_eq!(hex.len(), 64);
    assert!(hex.chars().all(|c| c.is_ascii_hexdigit()));
}

#[test]
fn verify_file_hash_matches() {
    let computed = compute_file_hash(&contents(b"x"), "sha256").unwrap();
    let expected = SourceHash::parse(&format!("sha256:{}", computed)).unwrap();
    assert!(verify_file_hash(&contents(b"x"), &expected).is_ok());
}

#[test]
fn verify_file_hash_mismatch() {
    let expected = SourceHash::parse(
        "sha256:0000000000000000000000000000000000000000000000000000000000000000",
    )
    .unwrap();
    let r = verify_file_hash(&contents(b"x"), &expected);
    assert!(matches!(r, Err(FetchError::HashMismatch { .. })));
}

#[test]
fn unsupported_source_type() {
    let s = source("git", "https://example.com/repo", "sha256:abc");
    let r = fetch_to_cache(&s);
    assert!(matches!(r, FetchAction::Fail(FetchError::UnsupportedSourceType(_))));
}

#[test]
fn known_digests() {
    assert_eq!(
        compute_file_hash(&contents(b""), "SHA256").unwrap(),
        "e3b0c44298fc1c149afbf4c8996fb92427ae41e4649b934ca495991b7852b855"
    );
    assert_eq!(
        compute_file_hash(&contents(b"abc"), "sha512").unwrap(),
        "ddaf35a193617abacc417349ae20413112e6fa4e89a97ea20a9eeee64b55d39a\
         2192992a274fc1a836ba3c23a3feebbd454d4423643ce80e2a9ac94fa54ca49f"
    );
}

#[test]
fn hash_errors_of_files() {
    let unopened = FileBytes::Unopened("gone".to_string());
    let unread = FileBytes::Unread("cut".to_string());
    assert_eq!(
        compute_file_hash(&unopened, "md5").unwrap_err(),
        FetchError::Io("gone".to_string())
    );
    assert_eq!(
        compute_file_hash(&unread, "md5").unwrap_err(),
        FetchError::UnsupportedSourceType("md5".to_string())
    );
    assert_eq!(
        compute_file_hash(&unread, "sha512").unwrap_err().to_string(),
        "fetch io: cut"
    );
    assert_eq!(
        compute_file_hash(&contents(b"x"), "md5").unwrap_err().to_string(),
        "unsupported source type: md5"
    );
    assert_eq!(
        FetchError::HashMismatch { expected: "a".to_string(), computed: "b".to_string() }
            .to_string(),
        "hash mismatch: expected a got b"
    );
}

const EMPTY: &str = "sha256:e3b0c44298fc1c149afbf4c8996fb92427ae41e4649b934ca495991b7852b855";

#[test]
fn fetch_to_cache_when_already_cached() {
    let content = b"cached artifact";
    let hex = compute_file_hash(&contents(content), "sha256").unwrap();
    let s = source("tarball", "https://example.com/foo.tar.gz", &format!("sha256:{}", hex));
    assert_eq!(fetch_to_cache(&s), FetchAction::Look);
    let seen = FetchEvent::Looked(Cached::File(contents(content)));
    assert_eq!(next_fetch_action(&s, seen), FetchAction::UseCached);
}

#[test]
fn fetch_to_cache_wrong_hash_removes_and_fails() {
    let s = source(
        "tarball",
        "https://example.com/bar.tar.gz",
        "sha256:0000000000000000000000000000000000000000000000000000000000000001",
    );
    let seen = FetchEvent::Looked(Cached::File(contents(b"wrong content")));
    assert_eq!(next_fetch_action(&s, seen), FetchAction::RemoveCachedFile);
    assert_eq!(next_fetch_action(&s, FetchEvent::Removed), FetchAction::Prepare);
    assert_eq!(
        next_fetch_action(&s, FetchEvent::Prepared(Ok(()))),
        FetchAction::Download("https://example.com/bar.tar.gz".to_string())
    );
    let e = FetchError::Http("no route".to_string());
    assert_eq!(
        next_fetch_action(&s, FetchEvent::Downloaded(Err(e.clone()))),
        FetchAction::Fail(e)
    );
}

#[test]
fn fetch_of_a_local_file() {
    let s = source("tarball", "file:///tmp/a.tar.gz", EMPTY);
    assert_eq!(next_fetch_action(&s, FetchEvent::Looked(Cached::Nothing)), FetchAction::Prepare);
    assert_eq!(
        next_fetch_action(&s, FetchEvent::Looked(Cached::NotFile)),
        FetchAction::RemoveCachedDir
    );
    assert_eq!(
        next_fetch_action(&s, FetchEvent::Prepared(Ok(()))),
        FetchAction::CopyLocal("/tmp/a.tar.gz".to_string())
    );
    assert_eq!(
        next_fetch_action(&s, FetchEvent::Copied(CopyOutcome::NotFile)),
        FetchAction::Fail(FetchError::Io(
            "file URL not found or not a file: file:///tmp/a.tar.gz".to_string()
        ))
    );
    assert_eq!(
        next_fetch_action(&s, FetchEvent::Copied(CopyOutcome::Failed("full".to_string()))),
        FetchAction::Fail(FetchError::Io("full".to_string()))
    );
    assert_eq!(
        next_fetch_action(&s, FetchEvent::Copied(CopyOutcome::Copied)),
        FetchAction::ReadTemp
    );
    assert_eq!(next_fetch_action(&s, FetchEvent::Read(contents(b""))), FetchAction::Publish);
    assert_eq!(next_fetch_action(&s, FetchEvent::Published(Ok(()))), FetchAction::Done);
    assert_eq!(
        next_fetch_action(&s, FetchEvent::Published(Err("busy".to_string()))),
        FetchAction::Fail(FetchError::Io("busy".to_string()))
    );
    assert_eq!(
        next_fetch_action(&s, FetchEvent::Prepared(Err("ro".to_string()))),
        FetchAction::Fail(FetchError::Io("ro".to_string()))
    );
}

#[test]
fn an_artifact_with_a_wrong_hash_is_thrown_away() {
    let s = source("tarball", "https://x/a", EMPTY);
    assert_eq!(
        next_fetch_action(&s, FetchEvent::Downloaded(Ok(()))),
        FetchAction::ReadTemp
    );
    let action = next_fetch_action(&s, FetchEvent::Read(contents(b"x")));
    if let FetchAction::RemoveTemp(e) = action {
        assert!(matches!(e, FetchError::HashMismatch { .. }));
        assert_eq!(
            next_fetch_action(&s, FetchEvent::TempRemoved(e.clone())),
            FetchAction::Fail(e)
        );
    } else {
        panic!("expected removal, got {:?}", action);
    }
}

#[test]
fn repeated_file_schemes_are_trimmed() {
    let s = source("tarball", "file://file:///x", EMPTY);
    assert_eq!(
        next_fetch_action(&s, FetchEvent::Prepared(Ok(()))),
        FetchAction::CopyLocal("/x".to_string())
    );
}

#[test]
fn statuses() {
    assert!(check_status(200).is_ok());
    assert!(check_status(299).is_ok());
    assert_eq!(check_status(404).unwrap_err(), FetchError::Http("404 404".to_string()));
    assert_eq!(check_status(199).unwrap_err().to_string(), "fetch http: 199 199");
    assert!(check_status(300).is_err());
}

#[test]
fn progress_is_throttled() {
    let mut p = Progress::new();
    assert!(!p.advance(65535, 99));
    assert!(p.advance(1, 0));
    assert_eq!(p, Progress { written: 65536, last_reported: 65536 });
    assert!(!p.advance(10, 99));
    assert!(p.advance(0, 100));
    assert_eq!(p, Progress { written: 65546, last_reported: 65546 });
}

#[test]
fn progress_lines_and_notes() {
    assert_eq!(percent(1, 3), 33);
    assert_eq!(percent(5, 0), 0);
    assert_eq!(
        progress_line("1.0 KB", Some(("3.0 KB", 33))),
        "fetch: 1.0 KB / 3.0 KB (33%)\r"
    );
    assert_eq!(progress_line("7 B", None), "fetch: 7 B\r");
    assert_eq!(temp_name("id"), "artifact.id.tmp");
    let s = source("tarball", "https://x/a", "sha512:ab");
    assert_eq!(fetch_note(FetchNote::UsingCache, &s), "fetch: using cache for https://x/a");
    assert_eq!(fetch_note(FetchNote::Downloading, &s), "fetch: downloading https://x/a");
    assert_eq!(fetch_note(FetchNote::Verified, &s), "fetch: verified sha512");
}

fn step(name: &str, version: &str, action: PlanAction) -> PlanStep {
    PlanStep {
        name: PackageName::new(name).unwrap(),
        version: Version::new(version).unwrap(),
        revision: 0,
        source: source("tarball", "https://x/a", "sha256:ab"),
        files: vec![],
        action,
    }
}

fn file(path: &str) -> TreeEntry {
    TreeEntry { path: path.to_string(), kind: EntryKind::File }
}

fn dir(path: &str) -> TreeEntry {
    TreeEntry { path: path.to_string(), kind: EntryKind::Directory }
}

#[test]
fn package_directories() {
    assert_eq!(pkg_dir_name(&step("foo", "1.0", PlanAction::Install)).unwrap(), "foo-1.0");
    let e = pkg_dir_name(&step("foo", "1/0", PlanAction::Install)).unwrap_err();
    assert_eq!(
        e.to_string(),
        "stage path: package name or version must not contain path separators or .."
    );
    assert!(pkg_dir_name(&step("foo", "1..0", PlanAction::Install)).is_err());
    assert!(pkg_dir_name(&step("foo", "1\\0", PlanAction::Install)).is_err());
}

#[test]
fn single_top_directory() {
    assert!(has_single_top_dir(&vec![true]));
    assert!(!has_single_top_dir(&vec![false]));
    assert!(!has_single_top_dir(&vec![true, true]));
    assert!(!has_single_top_dir(&vec![]));
}

#[test]
fn patterns() {
    assert_eq!(parse_pattern("  ").unwrap(), FilePattern::Nothing);
    assert_eq!(parse_pattern("*").unwrap(), FilePattern::Glob("".to_string()));
    assert_eq!(
        parse_pattern(" share\\helix\\* ").unwrap(),
        FilePattern::Glob("share/helix".to_string())
    );
    assert_eq!(parse_pattern("bin/x*").unwrap(), FilePattern::Glob("bin/x".to_string()));
    assert_eq!(parse_pattern("bin/**").unwrap(), FilePattern::Glob("bin/*".to_string()));
    assert_eq!(parse_pattern("bin/foo").unwrap(), FilePattern::Literal("bin/foo".to_string()));
    assert_eq!(
        parse_pattern("a..b").unwrap_err(),
        StageError::Path("pattern must not contain ..".to_string())
    );
}

#[test]
fn stage_plan_glob_expands() {
    let tree = vec![
        dir("share"),
        dir("share/helix"),
        file("share/helix/a"),
        file("share/helix/b"),
    ];
    assert_eq!(walk_under("share/helix", &tree).unwrap(), vec![2, 3]);
    assert_eq!(walk_under("", &tree).unwrap(), vec![2, 3]);
    assert_eq!(walk_under("share/helix/a", &tree).unwrap(), vec![2]);
}

#[test]
fn glob_does_not_match_similar_prefix() {
    let tree = vec![
        dir("share"),
        dir("share/helix"),
        file("share/helix/a"),
        dir("share/helix-something"),
        file("share/helix-something/x"),
    ];
    assert_eq!(walk_under("share/helix", &tree).unwrap(), vec![2]);
}

#[test]
fn a_tree_that_is_too_deep_cannot_be_walked() {
    let deep = vec!["d"; 256].join("/");
    let nearly = vec!["d"; 255].join("/");
    assert!(walk_under("", &vec![dir(&nearly), file(&deep)]).is_ok());
    assert_eq!(
        walk_under("", &vec![dir(&deep)]).unwrap_err(),
        StageError::Path("extract tree too deep when resolving file pattern".to_string())
    );
}

#[test]
fn symlink_relative_recreated_absolute_rejected() {
    let link = |target: &str| CopySource::Link(target.to_string());
    assert_eq!(copy_relative_file("link_rel", &link("real")).unwrap(), CopyKind::Link);
    let r = copy_relative_file("link_abs", &link("/etc/passwd"));
    assert!(matches!(r, Err(StageError::Path(_))));
    let r = copy_relative_file("link_traversal", &link("share/../etc/passwd"));
    assert!(matches!(r, Err(StageError::Path(_))));
}

#[test]
fn copying_files() {
    assert_eq!(copy_relative_file("a..b", &CopySource::Missing).unwrap(), CopyKind::Skip);
    assert_eq!(copy_relative_file("bin/a", &CopySource::File).unwrap(), CopyKind::File);
    assert_eq!(copy_relative_file("bin", &CopySource::Other).unwrap(), CopyKind::ParentOnly);
    assert_eq!(
        copy_relative_file("a..b", &CopySource::File).unwrap_err().to_string(),
        "stage path: path traversal not allowed"
    );
    assert_eq!(
        copy_relative_file("l", &CopySource::Link("/x".to_string())).unwrap_err(),
        StageError::Path("symlink with absolute target not allowed".to_string())
    );
    assert_eq!(
        copy_relative_file("l", &CopySource::Link("..".to_string())).unwrap_err(),
        StageError::Path("symlink target must not contain ..".to_string())
    );
    assert_eq!(
        copy_relative_file("l", &CopySource::Link("a..b".to_string())).unwrap(),
        CopyKind::Link
    );
}

#[test]
fn literal_paths() {
    assert_eq!(resolve_literal(LiteralFound::Nothing).unwrap(), LiteralFiles::Nothing);
    assert_eq!(
        resolve_literal(LiteralFound::File { inside: true }).unwrap(),
        LiteralFiles::TheFile
    );
    assert_eq!(
        resolve_literal(LiteralFound::File { inside: false }).unwrap_err(),
        StageError::Path("pattern path outside extract".to_string())
    );
    assert_eq!(resolve_literal(LiteralFound::Directory).unwrap(), LiteralFiles::FilesInside);
}

#[test]
fn steps_to_stage() {
    let plan = Plan {
        steps: vec![
            step("a", "1", PlanAction::Install),
            step("b", "1", PlanAction::Remove),
            step("c", "1/2", PlanAction::Upgrade),
        ],
        satisfied_by_system: vec![],
    };
    let tasks = stage_plan(&plan, false, true);
    assert_eq!(tasks.len(), 2);
    assert_eq!(tasks[0].step, 0);
    assert_eq!(tasks[0].dir, Ok("a-1".to_string()));
    assert_eq!(tasks[0].message.as_deref(), Some("stage: 1/2 packages: a-1"));
    assert_eq!(tasks[1].step, 2);
    assert!(tasks[1].dir.is_err());
    assert_eq!(tasks[1].message.as_deref(), Some("stage: 2/2 packages: c-1/2"));
    assert!(stage_plan(&plan, false, false).iter().all(|t| t.message.is_none()));
    let one = Plan {
        steps: vec![step("a", "1", PlanAction::Install)],
        satisfied_by_system: vec![],
    };
    assert!(stage_plan(&one, false, true)[0].message.is_none());
    assert!(stage_plan(&one, true, false)[0].message.is_some());
}

#[test]
fn stage_errors_in_words() {
    let e = StageError::from(FetchError::Http("404 404".to_string()));
    assert_eq!(e.to_string(), "stage fetch: fetch http: 404 404");
    assert_eq!(StageError::Extract("x".to_string()).to_string(), "stage extract: x");
    assert_eq!(StageError::Copy("x".to_string()).to_string(), "stage copy: x");
    assert_eq!(StageError::Io("x".to_string()).to_string(), "stage io: x");
}
