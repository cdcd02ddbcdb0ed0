use gallade::version::{MavenVersion, VersionParseError, VersionReq, VersionReqError};

#[test]
fn test_version_parsing() {
    assert!("32.1.3-jre".parse::<MavenVersion>().is_ok());
    assert!("1.2.3".parse::<MavenVersion>().is_ok());
    assert!("1.2".parse::<MavenVersion>().is_ok());
    assert!("1".parse::<MavenVersion>().is_ok());
    assert!("abc".parse::<MavenVersion>().is_err());
}

#[test]
fn test_version_req_parsing() {
    let req = VersionReq::parse("1.2.3").unwrap();
    assert!(matches!(req, VersionReq::Exact(_)));

    let req = VersionReq::parse("[1.2.0,2.0.0)").unwrap();
    match req {
        VersionReq::Range { min_inclusive, max_inclusive, .. } => {
            assert!(min_inclusive);
            assert!(!max_inclusive);
        }
        _ => panic!("expected range"),
    }

    assert!(matches!(VersionReq::parse("LATEST").unwrap(), VersionReq::Latest));
    assert!(matches!(VersionReq::parse("RELEASE").unwrap(), VersionReq::Release));
}

#[test]
fn test_version_req_matching() {
    let v1: MavenVersion = "1.2.3".parse().unwrap();
    let v2: MavenVersion = "1.5.0".parse().unwrap();
    let v3: MavenVersion = "2.0.0".parse().unwrap();

    let req = VersionReq::parse("1.2.3").unwrap();
    assert!(req.matches(&v1));
    assert!(!req.matches(&v2));

    let req = VersionReq::parse("[1.2.0,2.0.0)").unwrap();
    assert!(req.matches(&v1));
    assert!(req.matches(&v2));
    assert!(!req.matches(&v3));

    let req = VersionReq::parse("(1.2.0,2.0.0)").unwrap();
    assert!(req.matches(&v2));
    assert!(!req.matches(&v3));
}

#[test]
fn test_version_comparison() {
    let v1: MavenVersion = "1.2.3".parse().unwrap();
    let v2: MavenVersion = "1.2.4".parse().unwrap();
    let v3: MavenVersion = "1.2.3-jre".parse().unwrap();

    assert!(v1 < v2);
    assert!(v1 > v3);
    assert!(v2 > v3);
}

#[test]
fn missing_fields_default_to_zero() {
    let v = MavenVersion::parse("7").unwrap();
    assert_eq!((v.major, v.minor, v.patch), (7, 0, 0));
    assert_eq!(v.qualifier, None);
    let v = MavenVersion::parse("32.1.3-jre").unwrap();
    assert_eq!((v.major, v.minor, v.patch), (32, 1, 3));
    assert_eq!(v.qualifier, Some("jre".to_string()));
}

#[test]
fn qualifier_is_everything_after_first_dash() {
    let v = MavenVersion::parse("1.0-rc-1").unwrap();
    assert_eq!(v.qualifier, Some("rc-1".to_string()));
    assert_eq!(v.to_string(), "1.0.0-rc-1");
}

#[test]
fn version_errors() {
    assert_eq!(MavenVersion::parse("1.2.3.4").unwrap_err(), VersionParseError::InvalidFormat);
    assert_eq!(MavenVersion::parse("1..2").unwrap_err(), VersionParseError::InvalidFormat);
    assert_eq!(MavenVersion::parse("").unwrap_err(), VersionParseError::InvalidFormat);
    assert_eq!(MavenVersion::parse("abc").unwrap_err(), VersionParseError::InvalidNumber);
    assert_eq!(MavenVersion::parse("1.x").unwrap_err(), VersionParseError::InvalidNumber);
    assert_eq!(MavenVersion::parse("4294967296").unwrap_err(), VersionParseError::InvalidNumber);
    assert_eq!(MavenVersion::parse("4294967295").unwrap().major, 4294967295);
}

#[test]
fn display_then_parse_gives_same_version() {
    for text in ["1.2", "3", "0.0.1-SNAPSHOT", "10.20.30-a.b-c", "1.2.3-"] {
        let v = MavenVersion::parse(text).unwrap();
        let again = MavenVersion::parse(&v.to_string()).unwrap();
        assert!(again == v);
    }
    assert_eq!(MavenVersion::parse("1.2").unwrap().to_string(), "1.2.0");
}

#[test]
fn release_sorts_after_prerelease() {
    let release = MavenVersion::parse("1.2.3").unwrap();
    for q in ["anything", "alpha", "zzz", ""] {
        let pre = MavenVersion::parse(&format!("1.2.3-{}", q)).unwrap();
        assert!(release > pre);
    }
    let a = MavenVersion::parse("1.2.3-alpha").unwrap();
    let b = MavenVersion::parse("1.2.3-beta").unwrap();
    assert!(b > a);
    assert!(MavenVersion::parse("1.10.0").unwrap() > MavenVersion::parse("1.9.9").unwrap());
}

#[test]
fn requirement_errors() {
    assert_eq!(VersionReq::parse("[1.0,2.0").unwrap_err(), VersionReqError::MissingClosingBracket);
    assert_eq!(VersionReq::parse("[").unwrap_err(), VersionReqError::MissingClosingBracket);
    assert_eq!(VersionReq::parse("[1.0]").unwrap_err(), VersionReqError::WrongBoundCount);
    assert_eq!(VersionReq::parse("[1.0,2.0,3.0]").unwrap_err(), VersionReqError::WrongBoundCount);
    assert_eq!(
        VersionReq::parse("[x,2.0)").unwrap_err(),
        VersionReqError::InvalidBound(VersionParseError::InvalidNumber)
    );
    assert_eq!(
        VersionReq::parse("abc").unwrap_err(),
        VersionReqError::InvalidVersion(VersionParseError::InvalidNumber)
    );
}

#[test]
fn sentinels_ignore_case_and_blanks() {
    assert!(matches!(VersionReq::parse(" latest ").unwrap(), VersionReq::Latest));
    assert!(matches!(VersionReq::parse("Release").unwrap(), VersionReq::Release));
}

#[test]
fn open_upper_bound_range() {
    let req = VersionReq::parse("[1.0,)").unwrap();
    assert!(!req.matches(&MavenVersion::parse("0.9").unwrap()));
    assert!(req.matches(&MavenVersion::parse("1.0").unwrap()));
    assert!(req.matches(&MavenVersion::parse("2.3").unwrap()));
    let req = VersionReq::parse("(,2.0]").unwrap();
    assert!(req.matches(&MavenVersion::parse("2.0").unwrap()));
    assert!(!req.matches(&MavenVersion::parse("2.0.1").unwrap()));
}

#[test]
fn release_requirement_excludes_qualified_versions() {
    let req = VersionReq::parse("RELEASE").unwrap();
    assert!(req.matches(&MavenVersion::parse("2.0").unwrap()));
    assert!(!req.matches(&MavenVersion::parse("2.0-jre").unwrap()));
    let req = VersionReq::parse("LATEST").unwrap();
    assert!(req.matches(&MavenVersion::parse("2.0-jre").unwrap()));
}

#[test]
fn bounds_and_sentinels_trim_unicode_white_space() {
    match VersionReq::parse("[\u{3000},1.0)").unwrap() {
        VersionReq::Range { min, min_inclusive, max, max_inclusive } => {
            assert!(min.is_none());
            assert!(min_inclusive);
            assert_eq!(max.unwrap().to_string(), "1.0.0");
            assert!(!max_inclusive);
        }
        _ => panic!("expected range"),
    }
    assert!(matches!(VersionReq::parse("\u{3000}LATEST\u{a0}").unwrap(), VersionReq::Latest));
    assert!(matches!(VersionReq::parse("[\u{2003}1.0 , 2.0\u{85})").unwrap(), VersionReq::Range { .. }));
}

#[test]
fn sentinels_follow_unicode_upper_case() {
    assert!(matches!(VersionReq::parse("relea\u{17f}e").unwrap(), VersionReq::Release));
    assert!(matches!(VersionReq::parse("late\u{17f}t").unwrap(), VersionReq::Latest));
    assert!(matches!(VersionReq::parse_folded("x", "LATEST").unwrap(), VersionReq::Latest));
    assert!(VersionReq::parse_folded("latest", "OTHER").is_err());
}
