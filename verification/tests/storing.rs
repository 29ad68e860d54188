//! The installed database, the lockfile and the cache.

use sha2::Digest;

use sic::package_name::PackageName;
use sic::source::{Source, SourceHash};
use sic::storage::{
    cache_path, InstalledDb, InstalledEntry, InstalledLoadError, InstalledWriteError, Lockfile,
    LockfileLoadError, LockfilePackage, LockfileWriteError, Stored,
};
use sic::version::Version;

fn decode_entries(s: &str) -> Vec<InstalledEntry> {
    let root: toml::Table = s.parse().unwrap();
    root["packages"]
        .as_array()
        .unwrap()
        .iter()
        .map(|p| InstalledEntry {
            name: PackageName::new(p["name"].as_str().unwrap()).unwrap(),
            version: Version::new(p["version"].as_str().unwrap()).unwrap(),
            revision: p["revision"].as_integer().unwrap() as u32,
            install_path: p["install_path"].as_str().unwrap().to_string(),
            files: p["files"]
                .as_array()
                .unwrap()
                .iter()
                .map(|f| f.as_str().unwrap().to_string())
                .collect(),
            file_checksums: vec![],
        })
        .collect()
}

fn decode_lockfile(s: &str) -> Lockfile {
    let root: toml::Table = s.parse().unwrap();
    let packages = root["packages"]
        .as_array()
        .unwrap()
        .iter()
        .map(|p| LockfilePackage {
            name: PackageName::new(p["name"].as_str().unwrap()).unwrap(),
            version: Version::new(p["version"].as_str().unwrap()).unwrap(),
            revision: p["revision"].as_integer().unwrap() as u32,
            source: Source {
                kind: p["source"]["type"].as_str().unwrap().to_string(),
                url: p["source"]["url"].as_str().unwrap().to_string(),
                hash: SourceHash::parse(p["source"]["hash"].as_str().unwrap()).unwrap(),
            },
        })
        .collect();
    Lockfile { packages }
}

#[test]
fn load_missing_file_returns_empty() {
    let db = InstalledDb::load(Stored::Missing).unwrap();
    assert!(db.list_all().is_empty());
    assert!(db
        .get_by_name(&PackageName::new("helix").unwrap())
        .is_none());
    assert_eq!(InstalledDb::relative_path(), "var/installed.toml");
}

#[test]
fn load_one_package() {
    let content = r#"
[[packages]]
name = "helix"
version = "24.03"
revision = 1
install_path = "pkgs/helix-24.03"
files = ["bin/helix", "share/helix/"]
"#;
    let db = InstalledDb::load(Stored::Document(decode_entries(content))).unwrap();
    let entries = db.list_all();
    assert_eq!(entries.len(), 1);
    assert_eq!(entries[0].name.as_str(), "helix");
    assert_eq!(entries[0].version.as_str(), "24.03");
    assert_eq!(entries[0].revision, 1);
    assert_eq!(entries[0].install_path, "pkgs/helix-24.03");
    assert_eq!(entries[0].files, &["bin/helix", "share/helix/"]);
    let helix = db.get_by_name(&PackageName::new("helix").unwrap()).unwrap();
    assert_eq!(helix.version.as_str(), "24.03");
}

#[test]
fn installed_write_then_read_roundtrip() {
    let db = InstalledDb::from(vec![InstalledEntry {
        name: PackageName::new("ripgrep").unwrap(),
        version: Version::new("13.0").unwrap(),
        revision: 0,
        install_path: "pkgs/ripgrep-13.0".to_string(),
        files: vec!["bin/rg".to_string()],
        file_checksums: vec![],
    }]);
    let loaded = InstalledDb::load(Stored::Document(db.list_all().clone())).unwrap();
    assert_eq!(loaded.list_all().len(), 1);
    assert_eq!(loaded.list_all()[0].name.as_str(), "ripgrep");
    assert_eq!(loaded.list_all()[0].version.as_str(), "13.0");
    assert_eq!(loaded.list_all()[0].install_path, "pkgs/ripgrep-13.0");
    assert_eq!(loaded, db);
    assert_eq!(loaded.clone(), db);
}

#[test]
fn load_duplicate_package_name_keeps_last() {
    let content = r#"
[[packages]]
name = "foo"
version = "1.0"
revision = 0
install_path = "pkgs/foo-1.0"
files = []

[[packages]]
name = "foo"
version = "2.0"
revision = 0
install_path = "pkgs/foo-2.0"
files = []
"#;
    let db = InstalledDb::load(Stored::Document(decode_entries(content))).unwrap();
    let entries = db.list_all();
    assert_eq!(entries.len(), 1, "duplicate name should dedupe to one entry");
    assert_eq!(entries[0].version.as_str(), "2.0", "last occurrence wins");
    assert_eq!(
        db.get_by_name(&PackageName::new("foo").unwrap()).unwrap().version.as_str(),
        "2.0"
    );
}

#[test]
fn entries_are_sorted_by_name() {
    let content = r#"
[[packages]]
name = "b"
version = "1"
revision = 0
install_path = "pkgs/b-1"
files = []

[[packages]]
name = "a"
version = "1"
revision = 0
install_path = "pkgs/a-1"
files = []

[[packages]]
name = "b"
version = "2"
revision = 0
install_path = "pkgs/b-2"
files = []
"#;
    let db = InstalledDb::from_entries(decode_entries(content));
    let names: Vec<&str> = db.list_all().iter().map(|e| e.name.as_str()).collect();
    assert_eq!(names, vec!["a", "b"]);
}

#[test]
fn installed_load_errors() {
    let e = InstalledDb::load(Stored::Unreadable("denied".to_string())).unwrap_err();
    assert_eq!(e, InstalledLoadError::Io("denied".to_string()));
    assert_eq!(e.to_string(), "installed.toml read error: denied");
    let e = InstalledDb::load(Stored::Malformed("bad".to_string())).unwrap_err();
    assert_eq!(e.to_string(), "installed.toml parse error: bad");
    assert_eq!(
        InstalledWriteError::Io("x".to_string()).to_string(),
        "installed.toml write error: x"
    );
    assert_eq!(
        InstalledWriteError::Serialize("x".to_string()).to_string(),
        "installed.toml serialize error: x"
    );
}

#[test]
fn parse_example_from_design() {
    let lf = decode_lockfile(
        r#"
[[packages]]
name = "helix"
version = "24.03"
revision = 1
source = { type = "tarball", url = "https://helix-editor.com/helix.tar.gz", hash = "sha256:abcd1234" }

[[packages]]
name = "ripgrep"
version = "13.0"
revision = 2
source = { type = "tarball", url = "https://github.com/BurntSushi/ripgrep/releases/download/13.0/ripgrep.tar.gz", hash = "sha256:deadbeef" }
"#,
    );
    assert_eq!(lf.packages.len(), 2);
    assert_eq!(lf.packages[0].name.as_str(), "helix");
    assert_eq!(lf.packages[0].version.as_str(), "24.03");
    assert_eq!(lf.packages[0].revision, 1);
    assert_eq!(lf.packages[0].source.kind, "tarball");
    assert_eq!(
        lf.packages[0].source.url,
        "https://helix-editor.com/helix.tar.gz"
    );
    assert_eq!(lf.packages[0].source.hash.algorithm, "sha256");
    assert_eq!(lf.packages[0].source.hash.hex, "abcd1234");
    assert_eq!(lf.packages[1].name.as_str(), "ripgrep");
}

#[test]
fn lockfile_write_then_read_roundtrip() {
    let lf = Lockfile {
        packages: vec![LockfilePackage {
            name: PackageName::new("foo").unwrap(),
            version: Version::new("1.0").unwrap(),
            revision: 0,
            source: Source {
                kind: "tarball".to_string(),
                url: "https://example.com/foo.tar.gz".to_string(),
                hash: SourceHash::parse("sha256:abc123").unwrap(),
            },
        }],
    };
    let loaded = Lockfile::load(Stored::Document(lf.clone())).unwrap().unwrap();
    assert_eq!(loaded.packages.len(), 1);
    assert_eq!(loaded.packages[0].name.as_str(), "foo");
    assert_eq!(loaded.packages[0].source.hash.hex, "abc123");
    assert_eq!(loaded, lf);
}

#[test]
fn missing_file_returns_none() {
    let r = Lockfile::load(Stored::Missing).unwrap();
    assert!(r.is_none());
}

#[test]
fn lockfile_errors() {
    let e = Lockfile::load(Stored::Unreadable("denied".to_string())).unwrap_err();
    assert_eq!(e, LockfileLoadError::Io("denied".to_string()));
    assert_eq!(e.to_string(), "lockfile read error: denied");
    let e = Lockfile::load(Stored::Malformed("bad".to_string())).unwrap_err();
    assert_eq!(e.to_string(), "lockfile parse error: bad");
    assert_eq!(LockfileWriteError::Io("x".to_string()).to_string(), "lockfile write error: x");
    assert_eq!(
        LockfileWriteError::Serialize("x".to_string()).to_string(),
        "lockfile serialize error: x"
    );
    assert!(Lockfile::default().packages.is_empty());
}

#[test]
fn same_url_hash_same_path() {
    let prefix = "/tmp/sic";
    let source = Source {
        kind: "tarball".to_string(),
        url: "https://example.com/foo.tar.gz".to_string(),
        hash: SourceHash::parse("sha256:deadbeef").unwrap(),
    };
    let p1 = cache_path(prefix, &source);
    let p2 = cache_path(prefix, &source);
    assert_eq!(p1, p2);
}

#[test]
fn path_under_prefix_var_cache() {
    let prefix = "/home/user/.local/sic";
    let source = Source {
        kind: "tarball".to_string(),
        url: "https://x.com/a.tar.gz".to_string(),
        hash: SourceHash::parse("sha256:abc").unwrap(),
    };
    let p = cache_path(prefix, &source);
    assert!(p.starts_with(prefix));
    assert!(p.contains("var"));
    assert!(p.contains("cache"));
}

#[test]
fn different_sources_different_paths() {
    let prefix = "/tmp/sic";
    let s1 = Source {
        kind: "tarball".to_string(),
        url: "https://a.com/x.tar.gz".to_string(),
        hash: SourceHash::parse("sha256:aaa").unwrap(),
    };
    let s2 = Source {
        kind: "tarball".to_string(),
        url: "https://b.com/y.tar.gz".to_string(),
        hash: SourceHash::parse("sha256:bbb").unwrap(),
    };
    assert_ne!(cache_path(prefix, &s1), cache_path(prefix, &s2));
}

#[test]
fn cache_path_is_named_by_url_and_hash() {
    let source = Source {
        kind: "tarball".to_string(),
        url: "https://example.com/ä.tar.gz".to_string(),
        hash: SourceHash::parse("sha512:ff").unwrap(),
    };
    let digest = sha2::Sha256::digest("https://example.com/ä.tar.gzsha512:ff".as_bytes());
    let expected = format!("/p/var/cache/{:x}/artifact", digest);
    assert_eq!(cache_path("/p", &source), expected);
    assert_eq!(cache_path("/p/", &source), expected);
    let other_kind = Source { kind: "git".to_string(), ..source.clone() };
    assert_eq!(cache_path("/p", &other_kind), expected);
}
