use gallade::coordinates::{Coordinate, CoordinateError};

#[test]
fn test_parse_with_version() {
    let coord = Coordinate::parse("com.google.guava:guava:31.1-jre").unwrap();
    assert_eq!(coord.namespace, "com.google.guava");
    assert_eq!(coord.name, "guava");
    assert_eq!(coord.version, Some("31.1-jre".to_string()));
}

#[test]
fn test_parse_without_version() {
    let coord = Coordinate::parse("org.slf4j:slf4j-api").unwrap();
    assert_eq!(coord.namespace, "org.slf4j");
    assert_eq!(coord.name, "slf4j-api");
    assert_eq!(coord.version, None);
}

#[test]
fn test_to_path() {
    let coord = Coordinate::parse("com.google.guava:guava").unwrap();
    assert_eq!(coord.to_path(), "com/google/guava/guava");
}

#[test]
fn coordinate_errors() {
    assert_eq!(Coordinate::parse("guava").unwrap_err(), CoordinateError::InvalidFormat);
    assert_eq!(Coordinate::parse("a:b:c:d").unwrap_err(), CoordinateError::InvalidFormat);
}

#[test]
fn coordinate_display_parses_back() {
    let c = Coordinate::parse("com.google.guava:guava:31.1-jre").unwrap();
    assert_eq!(c.to_string(), "com.google.guava:guava:31.1-jre");
    assert!(Coordinate::parse(&c.to_string()).unwrap() == c);
    assert_eq!(c.key(), "com.google.guava:guava");
    let u = c.unversioned();
    assert_eq!(u.to_string(), "com.google.guava:guava");
    assert!(!(u == c));
}
