use gallade::coordinates::Coordinate;
use gallade::repository::{ArtifactKind, Repository};
use gallade::resolver::{
    DependencyGraph, DependencyRequest, DependencyResolver, FetchPlan, PomDependency, ResolveError,
    Resolution,
};
use gallade::version::{MavenVersion, VersionParseError, VersionReq};

fn request(coord: &str, req: &str, depth: usize) -> DependencyRequest {
    DependencyRequest {
        coordinate: Coordinate::parse(coord).unwrap(),
        version_req: VersionReq::parse(req).unwrap(),
        scope: None,
        depth,
    }
}

fn texts(v: &[&str]) -> Vec<String> {
    v.iter().map(|s| s.to_string()).collect()
}

fn pom(group: &str, artifact: &str, version: Option<&str>, scope: Option<&str>) -> PomDependency {
    PomDependency {
        group_id: group.to_string(),
        artifact_id: artifact.to_string(),
        version: version.map(|v| v.to_string()),
        scope: scope.map(|s| s.to_string()),
    }
}

#[test]
fn exact_version_add_without_dependencies() {
    let root = Coordinate::parse("org.slf4j:slf4j-api").unwrap();
    let mut session = Resolution::start(&root, "1.7.36").unwrap();
    let (coord, version, depth) = session.next_node().unwrap();
    assert!(coord == root);
    assert_eq!(version.to_string(), "1.7.36");
    assert_eq!(depth, 0);
    let children = DependencyRequest::from_pom(&vec![], depth + 1).unwrap();
    assert!(children.is_empty());
    assert!(session.next_node().is_none());
    let graph = session.finish();
    assert_eq!(graph.resolved_len(), 1);
    let (c, v) = graph.resolved_at(0);
    assert_eq!(c.to_string(), "org.slf4j:slf4j-api");
    assert_eq!(v.to_string(), "1.7.36");
    assert!(graph.dependencies_of(&root).is_empty());

    let repo = Repository::new("/store".to_string());
    assert_eq!(
        repo.get_artifact_path(&root, "1.7.36", ArtifactKind::Binary),
        "/store/org/slf4j/slf4j-api/1.7.36/slf4j-api-1.7.36.jar"
    );
    assert_eq!(
        repo.get_artifact_path(&root, "1.7.36", ArtifactKind::Metadata),
        "/store/org/slf4j/slf4j-api/1.7.36/slf4j-api-1.7.36.pom"
    );
}

#[test]
fn root_version_must_parse() {
    let root = Coordinate::parse("a:b").unwrap();
    assert!(matches!(Resolution::start(&root, "x.y"), Err(VersionParseError::InvalidNumber)));
}

#[test]
fn test_scope_is_excluded() {
    let deps = vec![
        pom("org.slf4j", "slf4j-api", Some("1.7.36"), Some("compile")),
        pom("junit", "junit", Some("4.13.2"), Some("test")),
    ];
    let reqs = DependencyRequest::from_pom(&deps, 3).unwrap();
    assert_eq!(reqs.len(), 1);
    assert_eq!(reqs[0].coordinate.namespace, "org.slf4j");
    assert_eq!(reqs[0].coordinate.name, "slf4j-api");
    assert_eq!(reqs[0].depth, 3);
    assert!(matches!(reqs[0].version_req, VersionReq::Exact(_)));
}

#[test]
fn missing_version_means_latest() {
    let reqs = DependencyRequest::from_pom(&vec![pom("g", "a", None, None)], 1).unwrap();
    assert!(matches!(reqs[0].version_req, VersionReq::Latest));
    assert!(DependencyRequest::from_pom(&vec![pom("g", "a", Some("[1.0"), None)], 1).is_err());
}

#[test]
fn nearest_requirement_wins() {
    let a = Coordinate::parse("org:a").unwrap();
    let mut session = Resolution::start(&a, "1.0").unwrap();
    let offered = texts(&["2.5.0", "1.8.0", "1.2.0"]);

    let (node, _, depth) = session.next_node().unwrap();
    assert_eq!(depth, 0);
    let b_near = request("org:b", "[1.0,2.0)", 1);
    session.record_child(&node, &b_near);
    let chosen = session.select_version(&b_near, &offered).unwrap();
    assert_eq!(chosen.to_string(), "1.8.0");
    let c = request("org:c", "1.0", 1);
    session.record_child(&node, &c);
    assert_eq!(session.select_version(&c, &texts(&["1.0"])).unwrap().to_string(), "1.0.0");

    let (node, _, _) = session.next_node().unwrap();
    assert_eq!(node.to_string(), "org:b");
    let (node, _, depth) = session.next_node().unwrap();
    assert_eq!(node.to_string(), "org:c");
    let b_far = request("org:b", "[1.5,3.0)", depth + 1);
    session.record_child(&node, &b_far);
    let chosen = session.select_version(&b_far, &offered).unwrap();
    assert_eq!(chosen.to_string(), "1.8.0");

    let graph = session.finish();
    let b = Coordinate::parse("org:b").unwrap();
    assert_eq!(graph.resolved_version(&b).unwrap().to_string(), "1.8.0");
    assert_eq!(graph.dependencies_of(&a).len(), 2);
}

#[test]
fn open_upper_bound_picks_newest() {
    let root = Coordinate::parse("org:root").unwrap();
    let mut session = Resolution::start(&root, "1").unwrap();
    let (node, _, _) = session.next_node().unwrap();
    let child = request("org:lib", "[1.0,)", 1);
    session.record_child(&node, &child);
    let chosen = session.select_version(&child, &texts(&["2.3", "1.0", "0.9"])).unwrap();
    assert_eq!(chosen.to_string(), "2.3.0");
}

#[test]
fn resolution_errors() {
    let root = Coordinate::parse("org:root").unwrap();
    let mut session = Resolution::start(&root, "1").unwrap();
    let (node, _, _) = session.next_node().unwrap();
    let child = request("org:lib", "[3.0,4.0)", 1);
    session.record_child(&node, &child);
    match session.select_version(&child, &texts(&["2.3", "1.0"])) {
        Err(ResolveError::NoCompatibleVersion { coordinate, .. }) => {
            assert_eq!(coordinate.to_string(), "org:lib")
        }
        _ => panic!("expected no compatible version"),
    }
    assert!(matches!(
        session.select_version(&child, &texts(&["bad"])),
        Err(ResolveError::InvalidCandidate(VersionParseError::InvalidNumber))
    ));
}

#[test]
fn repeated_nodes_are_handed_out_once() {
    let root = Coordinate::parse("org:root").unwrap();
    let mut session = Resolution::start(&root, "1").unwrap();
    let (node, _, _) = session.next_node().unwrap();
    let child = request("org:lib", "1.0", 1);
    session.record_child(&node, &child);
    session.select_version(&child, &texts(&["1.0"])).unwrap();
    session.record_child(&node, &child);
    session.select_version(&child, &texts(&["1.0"])).unwrap();
    assert!(session.next_node().is_some());
    assert!(session.next_node().is_none());
}

#[test]
fn graph_compatibility_uses_nearest_requirement() {
    let mut g = DependencyGraph::new();
    let c = Coordinate::parse("x:y").unwrap();
    let v15 = MavenVersion::parse("1.5").unwrap();
    assert!(g.check_version_compatibility(&c, &v15));
    g.add_requirement(&c, VersionReq::parse("[2.0,3.0)").unwrap(), 2);
    assert!(!g.check_version_compatibility(&c, &v15));
    g.add_requirement(&c, VersionReq::parse("[1.0,2.0)").unwrap(), 1);
    assert!(g.check_version_compatibility(&c, &v15));
    g.add_requirement(&c, VersionReq::parse("9.9").unwrap(), 1);
    assert!(g.check_version_compatibility(&c, &v15));
}

#[test]
fn resolver_keeps_its_store() {
    let resolver = DependencyResolver::new(Repository::new("/r".to_string()));
    assert_eq!(resolver.repository().root(), "/r");
    assert!(resolver.start(&Coordinate::parse("a:b").unwrap(), "1.0").is_ok());
}

#[test]
fn test_pom_parser() {
    let deps = vec![
        pom("org.slf4j", "slf4j-api", Some("1.7.36"), None),
        pom("junit", "junit", Some("4.13.2"), Some("test")),
    ];
    let reqs = DependencyRequest::from_pom(&deps, 0).unwrap();
    assert_eq!(reqs.len(), 1);
    assert_eq!(reqs[0].coordinate.namespace, "org.slf4j");
}

#[test]
fn requests_keep_their_scope() {
    let deps = vec![pom("g", "a", Some("1.0"), Some("runtime")), pom("g", "b", None, None)];
    let reqs = DependencyRequest::from_pom(&deps, 2).unwrap();
    assert_eq!(reqs[0].scope, Some("runtime".to_string()));
    assert_eq!(reqs[1].scope, None);
}

#[test]
fn nearest_wins_scenario_chooses_both_versions() {
    let a = Coordinate::parse("org:a").unwrap();
    let b = Coordinate::parse("org:b").unwrap();
    let c = Coordinate::parse("org:c").unwrap();
    let offered_b = texts(&["2.5.0", "1.8.0", "1.2.0"]);
    let offered_c = texts(&["1.0"]);
    let mut session = Resolution::start(&a, "1.0").unwrap();
    while let Some((node, _, depth)) = session.next_node() {
        let children = if node == a {
            vec![request("org:b", "[1.0,2.0)", depth + 1), request("org:c", "1.0", depth + 1)]
        } else if node == c {
            vec![request("org:b", "[1.5,3.0)", depth + 1)]
        } else {
            vec![]
        };
        for child in &children {
            session.record_child(&node, child);
            let offered = if child.coordinate == b { &offered_b } else { &offered_c };
            session.select_version(child, offered).unwrap();
        }
    }
    let graph = session.finish();
    assert_eq!(graph.resolved_version(&b).unwrap().to_string(), "1.8.0");
    assert_eq!(graph.resolved_version(&c).unwrap().to_string(), "1.0.0");
    assert_eq!(graph.resolved_version(&a).unwrap().to_string(), "1.0.0");
}

#[test]
fn stored_artifacts_are_reused() {
    let p = FetchPlan::for_node(true, true);
    assert!(!p.download_jar && !p.download_metadata);
    let p = FetchPlan::for_node(false, true);
    assert!(p.download_jar && !p.download_metadata);
}
