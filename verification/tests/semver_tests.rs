use lib::semver::{BuildMetadata, Op, Prerelease, Version, VersionReq};
use std::cmp::Ordering;

fn v(s: &str) -> Version {
    Version::parse(s).unwrap()
}

#[test]
fn version_parse_parts() {
    let x = v("1.2.3-alpha.1+build.5");
    assert_eq!((x.major, x.minor, x.patch), (1, 2, 3));
    assert_eq!(x.pre.as_str(), "alpha.1");
    assert_eq!(x.build.as_str(), "build.5");
    let y = Version::new(4, 5, 6);
    assert!(y.pre.is_empty() && y.build.is_empty());
}

#[test]
fn version_parse_errors() {
    assert_eq!(Version::parse("1.2").unwrap_err().0, "expected '.'");
    assert_eq!(Version::parse("01.2.3").unwrap_err().0, "leading zero in numeric");
    assert_eq!(Version::parse("a.2.3").unwrap_err().0, "expected number");
    assert_eq!(Version::parse("1.2.3-").unwrap_err().0, "empty pre-release");
    assert_eq!(Version::parse("1.2.3+").unwrap_err().0, "empty build metadata");
    assert_eq!(Version::parse("1.2.3 x").unwrap_err().0, "unexpected trailing data: \" x\"");
    assert_eq!(Version::parse("1.2.3-01").unwrap_err().0, "leading zero in numeric identifier");
    assert_eq!(Version::parse("1.2.3-a..b").unwrap_err().0, "empty identifier");
    assert_eq!(Version::parse("1.2.3-a$").unwrap_err().0, "invalid identifier char");
    assert_eq!(
        Version::parse("99999999999999999999.0.0").unwrap_err().0,
        "number too large to fit in target type"
    );
}

#[test]
fn version_display_round_trip() {
    for s in ["0.0.0", "1.2.3", "1.2.3-alpha.1", "1.2.3+build.5", "10.20.30-rc.1+x.7"] {
        assert_eq!(v(s).to_string(), s);
        assert_eq!(v(&v(s).to_string()).to_string(), s);
    }
}

#[test]
fn prerelease_and_build_new() {
    assert_eq!(Prerelease::new("alpha.1").unwrap().as_str(), "alpha.1");
    assert!(Prerelease::new("").unwrap().is_empty());
    assert_eq!(Prerelease::new("01").unwrap_err().0, "leading zero in numeric identifier");
    assert_eq!(BuildMetadata::new("001").unwrap().as_str(), "001");
    assert_eq!(BuildMetadata::new("a.").unwrap_err().0, "empty identifier");
}

#[test]
fn version_precedence_order() {
    let chain = [
        "1.0.0-alpha",
        "1.0.0-alpha.1",
        "1.0.0-alpha.beta",
        "1.0.0-beta",
        "1.0.0-beta.2",
        "1.0.0-beta.11",
        "1.0.0-rc.1",
        "1.0.0",
        "1.0.1",
        "1.1.0",
        "2.0.0",
    ];
    for i in 0..chain.len() {
        for j in 0..chain.len() {
            let expected = i.cmp(&j);
            assert_eq!(v(chain[i]).cmp(&v(chain[j])), expected, "{} vs {}", chain[i], chain[j]);
        }
    }
    assert_eq!(v("1.0.0+a").cmp(&v("1.0.0+b")), Ordering::Equal);
}

#[test]
fn req_parse_and_display() {
    let r = VersionReq::parse(">=1.2.3, <2.0.0").unwrap();
    assert_eq!(r.comparators.len(), 2);
    assert_eq!(r.comparators[0].op, Op::GreaterEq);
    assert_eq!(r.comparators[1].op, Op::Less);
    assert_eq!(r.to_string(), ">=1.2.3, <2.0.0");
    assert_eq!(VersionReq::parse("1.2").unwrap().to_string(), "^1.2");
    assert_eq!(VersionReq::parse("1.*").unwrap().to_string(), "1.*");
    assert_eq!(VersionReq::parse("  *  ").unwrap().to_string(), "*");
    assert_eq!(VersionReq::parse("~1.2.3-beta").unwrap().to_string(), "~1.2.3-beta");
    assert_eq!(VersionReq::star().to_string(), "*");
}

#[test]
fn req_parse_errors() {
    assert_eq!(VersionReq::parse(">=x").unwrap_err().0, "wildcard with operator");
    assert_eq!(VersionReq::parse(">=a").unwrap_err().0, "bad major: \"a\"");
    assert_eq!(VersionReq::parse("1.b").unwrap_err().0, "bad minor: \"b\"");
    assert_eq!(VersionReq::parse("1.2.c").unwrap_err().0, "bad patch: \"c\"");
    assert_eq!(VersionReq::parse("1.2.3-01").unwrap_err().0, "leading zero in numeric identifier");
}

#[test]
fn req_matching() {
    let m = |req: &str, ver: &str| VersionReq::parse(req).unwrap().matches(&v(ver));
    assert!(m(">=1.2.3, <2.0.0", "1.5.0"));
    assert!(!m(">=1.2.3, <2.0.0", "2.0.0"));
    assert!(m("^1.2.3", "1.9.0"));
    assert!(!m("^1.2.3", "2.0.0"));
    assert!(!m("^1.2.3", "1.2.2"));
    assert!(m("^0.2.3", "0.2.9"));
    assert!(!m("^0.2.3", "0.3.0"));
    assert!(m("^0.0.3", "0.0.3"));
    assert!(!m("^0.0.3", "0.0.4"));
    assert!(m("~1.2.3", "1.2.9"));
    assert!(!m("~1.2.3", "1.3.0"));
    assert!(m("*", "1.0.0"));
    assert!(!m("*", "1.0.0-alpha"));
    assert!(m("=1.2.3-alpha", "1.2.3-alpha"));
    assert!(!m(">=1.2.3", "1.3.0-alpha"));
    assert!(m(">=1.2.3-alpha", "1.2.3-beta"));
    assert!(m("1.*", "1.7.2"));
    assert!(!m("1.*", "2.0.0"));
    assert!(m("<=1.2.3", "1.2.3"));
    assert!(m(">1.2", "1.3.0"));
    assert!(!m(">1.2", "1.2.9"));
}

#[test]
fn semver_built_version_text_reads_back() {
    let mut x = Version::new(10, 0, 7);
    x.pre = Prerelease::new("rc.1-x").unwrap();
    x.build = BuildMetadata::new("build.007").unwrap();
    let back = Version::parse(&x.to_string()).unwrap();
    assert_eq!(back.major, 10);
    assert_eq!(back.minor, 0);
    assert_eq!(back.patch, 7);
    assert_eq!(back.pre.as_str(), "rc.1-x");
    assert_eq!(back.build.as_str(), "build.007");
    let y = Version::new(u64::MAX, 0, 0);
    let back = Version::parse(&y.to_string()).unwrap();
    assert_eq!(back.major, u64::MAX);
    assert!(back.pre.is_empty() && back.build.is_empty());
}

#[test]
fn semver_requirement_text_reads_back() {
    for text in [">=1.2.3, <2.0.0", "~1.2.3-beta.2", "1.*", "1.2.*", "=0.0.1, ^3, >4.5", "*"] {
        let r = VersionReq::parse(text).unwrap();
        let again = VersionReq::parse(&r.to_string()).unwrap();
        assert_eq!(again, r, "{}", text);
        assert_eq!(again.to_string(), r.to_string());
    }
}
