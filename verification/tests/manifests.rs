//! Manifests: decoding, conversion and validation.

use sic::manifest::{
    is_package_file, load_packages_from_dir, parse, parse_and_validate, validate, validate_path_entry, Manifest, ManifestRoot, ParseError,
    ParseOrValidationError, RawManifest, RawSource, ValidationError,
};

const MINIMAL_MANIFEST: &str = r#"
[sic]
name = "foo"
version = "1.0"
source = { type = "tarball", url = "https://example.com/foo.tar.gz", hash = "sha256:deadbeef" }
depends = []
"#;

const FULL_MANIFEST: &str = r#"
[sic]
name = "helix"
version = "24.03"
revision = 0
source = { type = "tarball", url = "https://helix-editor.com/helix.tar.gz", hash = "sha256:abcd1234" }
depends = ["ripgrep >= 13"]
depends_any = []
recommends = []
conflicts = []
provides = ["editor"]
files = ["bin/helix", "share/helix/*"]
commands = ["helix"]
"#;

fn text_of(t: &toml::Table, key: &str) -> Result<String, String> {
    match t.get(key) {
        Some(v) => v.as_str().map(|s| s.to_string()).ok_or(format!("{} is no string", key)),
        None => Err(format!("missing field `{}`", key)),
    }
}

fn texts_of(t: &toml::Table, key: &str) -> Result<Vec<String>, String> {
    match t.get(key) {
        None => Ok(vec![]),
        Some(v) => v
            .as_array()
            .ok_or(format!("{} is no array", key))?
            .iter()
            .map(|s| s.as_str().map(|s| s.to_string()).ok_or(format!("{} holds no string", key)))
            .collect(),
    }
}

fn decode(s: &str) -> Result<ManifestRoot, String> {
    let root: toml::Table = s.parse().map_err(|e: toml::de::Error| e.to_string())?;
    let sic = root
        .get("sic")
        .and_then(|v| v.as_table())
        .ok_or("missing field `sic`".to_string())?;
    let source = sic
        .get("source")
        .and_then(|v| v.as_table())
        .ok_or("missing field `source`".to_string())?;
    if !sic.contains_key("depends") {
        return Err("missing field `depends`".to_string());
    }
    let groups = match sic.get("depends_any").and_then(|v| v.as_array()) {
        None => vec![],
        Some(groups) => groups
            .iter()
            .map(|g| {
                g.as_array()
                    .unwrap()
                    .iter()
                    .map(|s| s.as_str().unwrap().to_string())
                    .collect()
            })
            .collect(),
    };
    Ok(ManifestRoot {
        sic: RawManifest {
            name: text_of(sic, "name")?,
            version: text_of(sic, "version")?,
            revision: sic.get("revision").and_then(|v| v.as_integer()).map(|n| n as u32),
            source: RawSource {
                kind: text_of(source, "type")?,
                url: text_of(source, "url")?,
                hash: text_of(source, "hash")?,
            },
            depends: texts_of(sic, "depends")?,
            depends_any: groups,
            recommends: texts_of(sic, "recommends")?,
            conflicts: texts_of(sic, "conflicts")?,
            provides: texts_of(sic, "provides")?,
            files: texts_of(sic, "files")?,
            commands: texts_of(sic, "commands")?,
        },
    })
}

#[test]
fn parse_valid_minimal() {
    let m = parse(decode(MINIMAL_MANIFEST)).unwrap();
    assert_eq!(m.name.as_str(), "foo");
    assert_eq!(m.version.as_str(), "1.0");
    assert_eq!(m.revision, 0);
    assert_eq!(m.source.kind, "tarball");
    assert_eq!(m.source.url, "https://example.com/foo.tar.gz");
    assert_eq!(m.depends.len(), 0);
}

#[test]
fn parse_valid_full() {
    let m = parse(decode(FULL_MANIFEST)).unwrap();
    assert_eq!(m.name.as_str(), "helix");
    assert_eq!(m.version.as_str(), "24.03");
    assert_eq!(m.revision, 0);
    assert_eq!(m.depends.len(), 1);
    assert_eq!(m.depends[0].name.as_str(), "ripgrep");
    assert_eq!(m.provides, &["editor"]);
    assert_eq!(m.files, &["bin/helix", "share/helix/*"]);
    assert_eq!(m.commands, &["helix"]);
}

#[test]
fn parse_invalid_missing_name() {
    let s = r#"
[sic]
version = "1.0"
source = { type = "tarball", url = "https://x.com/x.tar.gz", hash = "sha256:ab" }
depends = []
"#;
    let r = parse(decode(s));
    assert!(r.is_err());
    if let Err(ParseError::Toml(_)) = r {
    } else {
        panic!("expected Toml error, got {:?}", r);
    }
}

#[test]
fn parse_invalid_name_uppercase() {
    let s = r#"
[sic]
name = "Helix"
version = "24.03"
source = { type = "tarball", url = "https://x.com/x.tar.gz", hash = "sha256:abcd" }
depends = []
"#;
    let r = parse(decode(s));
    assert!(r.is_err());
    if let Err(ParseError::InvalidName(_)) = r {
    } else {
        panic!("expected InvalidName, got {:?}", r);
    }
}

#[test]
fn parse_invalid_hash_format() {
    let s = r#"
[sic]
name = "foo"
version = "1.0"
source = { type = "tarball", url = "https://x.com/x.tar.gz", hash = "not-algorithm-hex" }
depends = []
"#;
    let r = parse(decode(s));
    assert!(r.is_err());
    if let Err(ParseError::InvalidHash(_)) = r {
    } else {
        panic!("expected InvalidHash, got {:?}", r);
    }
}

#[test]
fn validate_rejects_absolute_path() {
    let s = r#"
[sic]
name = "foo"
version = "1.0"
source = { type = "tarball", url = "https://x.com/x.tar.gz", hash = "sha256:abcd" }
depends = []
files = ["/absolute/path"]
"#;
    let m = parse(decode(s)).unwrap();
    let r = validate(&m);
    assert!(r.is_err());
    if let Err(ValidationError::InvalidPath { .. }) = r {
    } else {
        panic!("expected InvalidPath, got {:?}", r);
    }
}

#[test]
fn validate_rejects_path_traversal() {
    let s = r#"
[sic]
name = "foo"
version = "1.0"
source = { type = "tarball", url = "https://x.com/x.tar.gz", hash = "sha256:abcd" }
depends = []
files = ["bin/foo", "../etc/passwd"]
"#;
    let m = parse(decode(s)).unwrap();
    let r = validate(&m);
    assert!(r.is_err());
    if let Err(ValidationError::InvalidPath { .. }) = r {
    } else {
        panic!("expected InvalidPath, got {:?}", r);
    }
}

#[test]
fn validate_allows_segment_containing_dotdot() {
    // Segment "a..b" is not traversal; only ".." as a component is rejected.
    let s = r#"
[sic]
name = "foo"
version = "1.0"
source = { type = "tarball", url = "https://x.com/x.tar.gz", hash = "sha256:abcd" }
depends = []
files = ["share/helix/a..b"]
"#;
    let m = parse(decode(s)).unwrap();
    let r = validate(&m);
    assert!(r.is_ok(), "a..b in path segment should be allowed: {:?}", r);
}

#[test]
fn parse_and_validate_success() {
    let m = parse_and_validate(decode(MINIMAL_MANIFEST)).unwrap();
    assert_eq!(m.name.as_str(), "foo");
}

#[test]
fn parse_and_validate_fails_on_invalid_url() {
    let s = r#"
[sic]
name = "foo"
version = "1.0"
source = { type = "tarball", url = "", hash = "sha256:abcd" }
depends = []
"#;
    let m = parse(decode(s)).unwrap();
    let r = validate(&m);
    assert!(r.is_err());
    if let Err(ValidationError::InvalidSourceUrl { .. }) = r {
    } else {
        panic!("expected InvalidSourceUrl, got {:?}", r);
    }
}

#[test]
fn parse_from_path_valid() {
    let s = r#"
[sic]
name = "helix"
version = "24.03"
source = { type = "tarball", url = "https://helix-editor.com/helix.tar.gz", hash = "sha256:abcd1234" }
depends = ["ripgrep >= 13"]
provides = ["editor"]
files = ["bin/helix"]
commands = ["helix"]
"#;
    let m = parse(decode(s)).unwrap();
    assert_eq!(m.name.as_str(), "helix");
    assert_eq!(m.version.as_str(), "24.03");
    assert_eq!(m.depends.len(), 1);
}

#[test]
fn parse_from_path_missing_file() {
    let r = parse(Err("No such file or directory".to_string()));
    assert!(r.is_err());
    assert_eq!(
        r.unwrap_err().to_string(),
        "manifest parse error: No such file or directory"
    );
}

fn raw() -> RawManifest {
    decode(FULL_MANIFEST).unwrap().sic
}

#[test]
fn first_bad_field_is_reported() {
    let mut r = raw();
    r.version = " ".to_string();
    r.source.hash = "x".to_string();
    assert_eq!(Manifest::try_from(r).unwrap_err(), ParseError::InvalidVersion);

    let mut r = raw();
    r.depends = vec!["ok >= 1".to_string(), "bad".to_string(), "".to_string()];
    r.conflicts = vec!["Bad".to_string()];
    assert_eq!(
        Manifest::from_raw(r).unwrap_err().to_string(),
        "dependency constraint missing operator: \"bad\""
    );

    let mut r = raw();
    r.depends_any = vec![vec!["a >= 1".to_string()], vec!["b = 2".to_string(), "".to_string()]];
    assert_eq!(Manifest::from_raw(r).unwrap_err().to_string(), "empty dependency constraint");

    let mut r = raw();
    r.recommends = vec!["c".to_string()];
    assert!(matches!(Manifest::from_raw(r), Err(ParseError::InvalidDepConstraint(_))));

    let mut r = raw();
    r.conflicts = vec!["good".to_string(), "Bad".to_string()];
    assert_eq!(
        Manifest::from_raw(r).unwrap_err().to_string(),
        "invalid package name: \"Bad\""
    );
}

#[test]
fn lists_keep_their_order() {
    let mut r = raw();
    r.revision = None;
    r.depends = vec!["a >= 1".to_string(), "b < 2".to_string()];
    r.depends_any = vec![vec!["c = 1".to_string()], vec![]];
    r.conflicts = vec!["d".to_string(), "e".to_string()];
    let m = Manifest::from_raw(r).unwrap();
    assert_eq!(m.revision, 0);
    assert_eq!(m.depends[1].to_string(), "b < 2");
    assert_eq!(m.depends_any.len(), 2);
    assert_eq!(m.depends_any[0][0].to_string(), "c = 1");
    assert_eq!(m.conflicts[1].as_str(), "e");
    assert_eq!(m.clone(), m);
}

#[test]
fn path_entries() {
    assert!(validate_path_entry("").is_ok());
    assert!(validate_path_entry("  ").is_ok());
    assert!(validate_path_entry("bin/foo").is_ok());
    assert_eq!(
        validate_path_entry(" /etc ").unwrap_err().to_string(),
        "invalid path \"/etc\": absolute path not allowed"
    );
    assert_eq!(
        validate_path_entry("a/../b").unwrap_err(),
        ValidationError::InvalidPath {
            value: "a/../b".to_string(),
            reason: "path traversal (..) not allowed".to_string()
        }
    );
}

#[test]
fn source_urls() {
    let with_url = |url: &str| {
        let mut r = raw();
        r.source.url = url.to_string();
        parse_and_validate(Ok(ManifestRoot { sic: r }))
    };
    assert!(with_url("http://x").is_ok());
    assert!(with_url(" file:///x ").is_ok());
    assert_eq!(
        with_url("ftp://x").unwrap_err().to_string(),
        "invalid source URL \"ftp://x\": source URL must start with http://, https://, or file://"
    );
    assert_eq!(
        with_url(" ").unwrap_err(),
        ParseOrValidationError::Validation(ValidationError::InvalidSourceUrl {
            value: " ".to_string(),
            reason: "source URL must be non-empty".to_string()
        })
    );
    assert_eq!(
        parse_and_validate(Err("no".to_string())).unwrap_err(),
        ParseOrValidationError::Parse(ParseError::Toml("no".to_string()))
    );
}

#[test]
fn commands_are_checked_after_files() {
    let mut r = raw();
    r.commands = vec!["/bin/x".to_string()];
    let m = Manifest::from_raw(r).unwrap();
    assert_eq!(
        validate(&m).unwrap_err(),
        ValidationError::InvalidPath {
            value: "/bin/x".to_string(),
            reason: "absolute path not allowed".to_string()
        }
    );
}

#[test]
fn packages_of_a_directory() {
    assert!(is_package_file("a.toml") && is_package_file("..toml"));
    assert!(!is_package_file(".toml") && !is_package_file("atoml") && !is_package_file("a.toml2"));
    let packages = load_packages_from_dir(vec![
        decode(FULL_MANIFEST),
        Err("denied".to_string()),
        decode(&MINIMAL_MANIFEST.replace("https", "ftp")),
        decode(MINIMAL_MANIFEST),
    ]);
    let names: Vec<&str> = packages.iter().map(|m| m.name.as_str()).collect();
    assert_eq!(names, vec!["helix", "foo"]);
}
