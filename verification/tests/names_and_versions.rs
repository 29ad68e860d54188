//! Package names, versions, constraints and sources.

use std::cmp::Ordering;

use sic::dep_constraint::{DepConstraint, DepOp, InvalidDepConstraint};
use sic::package_name::PackageName;
use sic::source::{InvalidSourceHash, SourceHash};
use sic::version::Version;

#[test]
fn valid_names() {
    assert!(PackageName::new("helix").is_ok());
    assert!(PackageName::new("ripgrep").is_ok());
    assert!(PackageName::new("a").is_ok());
    assert!(PackageName::new("a-b_c").is_ok());
    assert!(PackageName::new("pkg42").is_ok());
}

#[test]
fn package_name_empty_rejected() {
    let r = PackageName::new("");
    assert!(r.is_err());
    assert_eq!(r.unwrap_err().value, "");
}

#[test]
fn uppercase_rejected() {
    let r = PackageName::new("Helix");
    assert!(r.is_err());
    assert_eq!(r.unwrap_err().value, "Helix");
}

#[test]
fn invalid_chars_rejected() {
    assert!(PackageName::new("helix.editor").is_err());
    assert!(PackageName::new("helix editor").is_err());
}

#[test]
fn invalid_name_in_words() {
    let e = PackageName::new("a\"b").unwrap_err();
    assert_eq!(e.to_string(), "invalid package name: \"a\\\"b\"");
}

#[test]
fn names_are_ordered_as_strings() {
    let a = PackageName::new("a").unwrap();
    let ab = PackageName::new("a-b").unwrap();
    let b = PackageName::new("b").unwrap();
    assert!(a.precedes(&ab) && ab.precedes(&b) && !b.precedes(&a) && !a.precedes(&a));
    assert!(a < ab && ab < b);
    assert!(a.same(&a.clone()));
    assert!(!a.same(&b));
    assert_eq!(ab.to_string(), "a-b");
}

#[test]
fn version_ordering() {
    assert!(Version::new("13").unwrap() < Version::new("24.03").unwrap());
    assert!(Version::new("24.03").unwrap() > Version::new("13").unwrap());
    assert!(Version::new("1.0").unwrap() < Version::new("1.0.0").unwrap());
    assert!(Version::new("1.0.0").unwrap() > Version::new("1.0").unwrap());
    assert_eq!(
        Version::new("24.03")
            .unwrap()
            .cmp(&Version::new("24.03").unwrap()),
        Ordering::Equal
    );
}

#[test]
fn version_empty_rejected() {
    assert!(Version::new("").is_err());
    assert!(Version::new("   ").is_err());
    assert_eq!(
        Version::new("").unwrap_err().to_string(),
        "version must be non-empty"
    );
}

fn v(s: &str) -> Version {
    Version::new(s).unwrap()
}

#[test]
fn versions_rank_by_number_and_suffix() {
    assert_eq!(v("1.10").cmp(&v("1.9")), Ordering::Greater);
    assert_eq!(v("1.0rc1").cmp(&v("1.0")), Ordering::Greater);
    assert_eq!(v("1.0a").cmp(&v("1.0b")), Ordering::Less);
    assert_eq!(v("alpha").cmp(&v("0")), Ordering::Less);
    assert_eq!(v("1.x").cmp(&v("1.0")), Ordering::Less);
    assert_eq!(v("1.0").cmp(&v("1.00")), Ordering::Equal);
    assert!(v("1.0") != v("1.00"));
    assert!(v("1.0").ranks_with(&v("01.0")));
}

#[test]
fn numbers_beyond_64_bits_rank_as_words() {
    let largest = v("18446744073709551615");
    let beyond = v("18446744073709551616");
    assert_eq!(beyond.cmp(&largest), Ordering::Less);
    assert_eq!(beyond.cmp(&v("0")), Ordering::Less);
    assert_eq!(largest.cmp(&v("1")), Ordering::Greater);
}

#[test]
fn version_order_is_total_and_transitive() {
    let all = vec![v("1"), v("1.0"), v("1.00"), v("1.0-a"), v("x"), v("2"), v("1.a"), v(" 1")];
    for a in &all {
        assert!(!a.precedes(a));
        for b in &all {
            let less = a.precedes(b);
            let greater = b.precedes(a);
            let equal = a.ranks_with(b);
            assert_eq!(less as u8 + greater as u8 + equal as u8, 1);
            for c in &all {
                if less && b.precedes(c) {
                    assert!(a.precedes(c));
                }
            }
        }
    }
}

#[test]
fn parse_ge() {
    let c = DepConstraint::parse("ripgrep >= 13").unwrap();
    assert_eq!(c.name.as_str(), "ripgrep");
    assert_eq!(c.op, DepOp::Ge);
    assert_eq!(c.version.as_str(), "13");
}

#[test]
fn parse_eq() {
    let c = DepConstraint::parse("helix = 24.03").unwrap();
    assert_eq!(c.name.as_str(), "helix");
    assert_eq!(c.op, DepOp::Eq);
    assert_eq!(c.version.as_str(), "24.03");
}

#[test]
fn parse_lt_gt() {
    let c = DepConstraint::parse("foo > 1").unwrap();
    assert_eq!(c.op, DepOp::Gt);
    let c = DepConstraint::parse("foo < 2").unwrap();
    assert_eq!(c.op, DepOp::Lt);
}

#[test]
fn reject_empty() {
    assert!(DepConstraint::parse("").is_err());
}

#[test]
fn reject_no_operator() {
    assert!(DepConstraint::parse("ripgrep").is_err());
}

#[test]
fn satisfies_ge() {
    let c = DepConstraint::parse("pkg >= 13").unwrap();
    assert!(c.satisfies(&Version::new("13").unwrap()));
    assert!(c.satisfies(&Version::new("24.03").unwrap()));
    assert!(!c.satisfies(&Version::new("12").unwrap()));
}

#[test]
fn satisfies_eq() {
    let c = DepConstraint::parse("pkg = 24.03").unwrap();
    assert!(c.satisfies(&Version::new("24.03").unwrap()));
    assert!(!c.satisfies(&Version::new("24.02").unwrap()));
    assert!(!c.satisfies(&Version::new("25").unwrap()));
}

#[test]
fn satisfies_lt_gt() {
    let gt = DepConstraint::parse("pkg > 1").unwrap();
    assert!(gt.satisfies(&Version::new("2").unwrap()));
    assert!(!gt.satisfies(&Version::new("1").unwrap()));
    let lt = DepConstraint::parse("pkg < 2").unwrap();
    assert!(lt.satisfies(&Version::new("1").unwrap()));
    assert!(!lt.satisfies(&Version::new("2").unwrap()));
}

#[test]
fn constraint_errors() {
    assert_eq!(DepConstraint::parse("  ").unwrap_err(), InvalidDepConstraint::Empty);
    assert_eq!(
        DepConstraint::parse(" rip>=1 ").unwrap_err(),
        InvalidDepConstraint::MissingOperator { value: "rip>=1".to_string() }
    );
    assert_eq!(
        DepConstraint::parse("Rip >= 1").unwrap_err(),
        InvalidDepConstraint::InvalidName("Rip".to_string())
    );
    assert_eq!(
        DepConstraint::parse("rip >= \u{a0} = 1").unwrap().version.as_str(),
        "= 1"
    );
    assert_eq!(
        DepConstraint::parse("rip >= ").unwrap_err(),
        InvalidDepConstraint::MissingOperator { value: "rip >=".to_string() }
    );
    assert_eq!(
        DepConstraint::parse("a = 1 >= 2").unwrap_err(),
        InvalidDepConstraint::InvalidName("a = 1".to_string())
    );
    assert_eq!(
        DepConstraint::parse("x").unwrap_err().to_string(),
        "dependency constraint missing operator: \"x\""
    );
    assert_eq!(DepConstraint::parse("").unwrap_err().to_string(), "empty dependency constraint");
    assert_eq!(
        DepConstraint::parse("A > 1").unwrap_err().to_string(),
        "invalid package name in constraint: \"A\""
    );
    assert_eq!(
        InvalidDepConstraint::InvalidVersion.to_string(),
        "invalid version in dependency constraint"
    );
}

#[test]
fn constraint_as_written() {
    let c: DepConstraint = "  foo   <=   2.0 ".parse().unwrap();
    assert_eq!(c.op, DepOp::Le);
    assert_eq!(c.to_string(), "foo <= 2.0");
    assert!(c.satisfies(&v("2.0")) && !c.satisfies(&v("2.0.1")));
}

#[test]
fn parse_valid_sha256() {
    let h = SourceHash::parse("sha256:deadbeef").unwrap();
    assert_eq!(h.algorithm, "sha256");
    assert_eq!(h.hex, "deadbeef");
}

#[test]
fn parse_valid_sha512() {
    let h = SourceHash::parse("sha512:abc123").unwrap();
    assert_eq!(h.algorithm, "sha512");
    assert_eq!(h.hex, "abc123");
}

#[test]
fn reject_no_colon() {
    assert!(SourceHash::parse("sha256").is_err());
}

#[test]
fn reject_unknown_algorithm() {
    assert!(SourceHash::parse("md5:abc").is_err());
}

#[test]
fn reject_invalid_hex() {
    assert!(SourceHash::parse("sha256:ghijkl").is_err());
}

#[test]
fn reject_empty_hex() {
    assert!(SourceHash::parse("sha256:").is_err());
}

#[test]
fn hash_is_trimmed_and_lowercased() {
    let h = SourceHash::parse(" SHA256 : DEADbeef ").unwrap();
    assert_eq!(h.algorithm, "sha256");
    assert_eq!(h.hex, "deadbeef");
    assert_eq!(h.to_string(), "sha256:deadbeef");
}

#[test]
fn hash_reads_back_from_its_text() {
    let h: SourceHash = "sha512:0123456789abcdef".parse().unwrap();
    assert_eq!(SourceHash::parse(h.to_string().as_str()).unwrap(), h);
}

#[test]
fn hash_errors() {
    let value = |s: &str| s.to_string();
    assert_eq!(
        SourceHash::parse("abc").unwrap_err(),
        InvalidSourceHash::MissingColon { value: value("abc") }
    );
    assert_eq!(
        SourceHash::parse(" :ab").unwrap_err(),
        InvalidSourceHash::EmptyAlgorithm { value: value(" :ab") }
    );
    assert_eq!(
        SourceHash::parse("MD5:ab").unwrap_err(),
        InvalidSourceHash::UnknownAlgorithm { value: value("MD5:ab"), algorithm: value("md5") }
    );
    assert_eq!(
        SourceHash::parse("\u{212a}X:ab").unwrap_err(),
        InvalidSourceHash::UnknownAlgorithm {
            value: value("\u{212a}X:ab"),
            algorithm: value("kx")
        }
    );
    assert_eq!(
        SourceHash::parse("sha256: ").unwrap_err(),
        InvalidSourceHash::EmptyHex { value: value("sha256: ") }
    );
    assert_eq!(
        SourceHash::parse("sha256:ab:cd").unwrap_err(),
        InvalidSourceHash::InvalidHex { value: value("sha256:ab:cd") }
    );
    assert_eq!(
        SourceHash::parse("sha256:xyz").unwrap_err().to_string(),
        "source hash hex is invalid in \"sha256:xyz\""
    );
    assert_eq!(
        SourceHash::parse("md5:ab").unwrap_err().to_string(),
        "unknown hash algorithm \"md5\" in \"md5:ab\""
    );
    assert_eq!(
        SourceHash::parse("x").unwrap_err().to_string(),
        "source hash must be algorithm:hex, got \"x\""
    );
    assert_eq!(
        SourceHash::parse(":x").unwrap_err().to_string(),
        "source hash algorithm is empty in \":x\""
    );
    assert_eq!(
        SourceHash::parse("sha256:").unwrap_err().to_string(),
        "source hash hex is empty in \"sha256:\""
    );
}

#[test]
fn constraints_read_back_from_their_texts() {
    for s in ["a >= 1", "b-c <= 2.0", "d = x y", "e > 1", "f < = 1"] {
        let c = DepConstraint::parse(s);
        if s == "f < = 1" {
            // Another operator stands in the version.
            assert!(c.is_err());
        } else {
            let c = c.unwrap();
            assert_eq!(c.to_string(), s);
            assert_eq!(DepConstraint::parse(&c.to_string()).unwrap(), c);
        }
    }
}

#[test]
fn constraint_reads_back_with_white_space_around() {
    for text in ["rip >= 1.2", "rip = 1.2", "rip <= 1.2", "rip > 1.2", "rip < 1.2"] {
        let c = DepConstraint::parse(text).unwrap();
        assert_eq!(c.to_string(), text);
        let padded = format!(" \t\n{}\u{a0} ", c.to_string());
        let again = DepConstraint::parse(&padded).unwrap();
        assert_eq!(again.to_string(), text);
    }
}
