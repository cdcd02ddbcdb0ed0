use gallade::classpath::{resolve_main_class, ClasspathBuilder, ClasspathError};
use gallade::coordinates::Coordinate;
use gallade::init::ProjectInitializer;
use gallade::manifest::{DepSpec, Manifest, ProjectConfig};
use gallade::projects::{build_file_name, dependency_coordinates, BuildSystemType, Project};
use gallade::registry::{content_url, merge_version_lists, search_url};
use gallade::repository::{ArtifactKind, Repository};
use gallade::run::needs_compilation;

#[test]
fn test_artifact_paths() {
    let repo = Repository::new("/tmp/store".to_string());
    let coord = Coordinate::parse("com.google.guava:guava").unwrap();
    let version = "31.1-jre";
    assert_eq!(
        repo.get_artifact_path(&coord, version, ArtifactKind::Binary),
        "/tmp/store/com/google/guava/guava/31.1-jre/guava-31.1-jre.jar"
    );
    assert_eq!(
        repo.get_artifact_path(&coord, version, ArtifactKind::Metadata),
        "/tmp/store/com/google/guava/guava/31.1-jre/guava-31.1-jre.pom"
    );
}

#[test]
fn test_project_dirs() {
    let project = Project::new("/work/app".to_string(), BuildSystemType::Maven);
    assert_eq!(project.gallade_dir(), "/work/app/.gallade");
    assert_eq!(project.repository_dir(), "/work/app/.gallade/repository");
    assert_eq!(project.build_file(), "/work/app/pom.xml");
    assert_eq!(build_file_name(BuildSystemType::Gallade), "gallade.toml");
}

#[test]
fn cleanup_stops_below_root() {
    let repo = Repository::new("/s".to_string());
    let coord = Coordinate::parse("org.test:test-lib").unwrap();
    assert_eq!(repo.version_dir(&coord, "1.0.0"), "/s/org/test/test-lib/1.0.0");
    assert_eq!(
        repo.cleanup_dirs(&coord),
        vec!["/s/org/test/test-lib".to_string(), "/s/org/test".to_string(), "/s/org".to_string()]
    );
}

#[test]
fn classpath_joins_entries() {
    let mut b = ClasspathBuilder::new(Repository::new("/s".to_string()));
    assert_eq!(b.build(), "");
    b.with_dir("target/classes".to_string());
    b.with_dep(&Coordinate::parse("org:lib").unwrap(), "1.0");
    assert_eq!(b.build(), "target/classes:/s/org/lib/1.0/lib-1.0.jar");
    b.with_repo(Repository::new("/t".to_string()));
    b.with_dep(&Coordinate::parse("org:x").unwrap(), "2");
    assert_eq!(b.build(), "target/classes:/s/org/lib/1.0/lib-1.0.jar:/t/org/x/2/x-2.jar");
    assert_eq!(b.build_with(";"), "target/classes;/s/org/lib/1.0/lib-1.0.jar;/t/org/x/2/x-2.jar");
}

#[test]
fn main_class_location() {
    let (name, file) = resolve_main_class("target/classes", Some("com.example.App".to_string())).unwrap();
    assert_eq!(name, "com.example.App");
    assert_eq!(file, "target/classes/com/example/App.class");
    assert_eq!(resolve_main_class("t", None).unwrap_err(), ClasspathError::NoMainClass);
}

#[test]
fn new_project_layout() {
    let init = ProjectInitializer::new("com.example".to_string(), "demo".to_string(), "1".to_string(), None);
    assert_eq!(init.package_path(), "com/example/demo");
    assert_eq!(init.main_class(), "com.example.demo.App");
    let m = init.manifest();
    assert_eq!(m.project.name, "demo");
    assert_eq!(m.project.version, "0.1.0");
    assert_eq!(m.project.main_class, Some("com.example.demo.App".to_string()));
    assert!(m.deps.is_empty());
}

#[test]
fn declared_dependencies_as_coordinates() {
    let m = Manifest {
        project: ProjectConfig {
            name: "p".to_string(),
            version: "0.1.0".to_string(),
            main_class: None,
            java_version: None,
        },
        deps: vec![
            ("com.google.guava:guava".to_string(), DepSpec::Simple("31.1-jre".to_string())),
            (
                "org:lib".to_string(),
                DepSpec::Detailed { version: "2.0".to_string(), scope: None, optional: false },
            ),
        ],
    };
    assert_eq!(
        dependency_coordinates(&m),
        vec!["com.google.guava:guava:31.1-jre".to_string(), "org:lib:2.0".to_string()]
    );
}

#[test]
fn registry_lists_are_merged_in_order() {
    let lists = vec![
        vec!["2.0".to_string(), "1.0".to_string()],
        vec!["3.0".to_string(), "2.0".to_string(), "3.0".to_string()],
    ];
    assert_eq!(
        merge_version_lists(&lists),
        vec!["2.0".to_string(), "1.0".to_string(), "3.0".to_string()]
    );
}

#[test]
fn registry_addresses() {
    let c = Coordinate::parse("org.slf4j:slf4j api").unwrap();
    assert_eq!(
        search_url(&c),
        "https://search.maven.org/solrsearch/select?q=g:org.slf4j+AND+a:slf4j%20api&core=gav&rows=20&wt=json"
    );
    let c = Coordinate::parse("org.slf4j:slf4j-api").unwrap();
    assert_eq!(
        content_url(&c, "1.7.36", ArtifactKind::Metadata),
        "https://search.maven.org/remotecontent?filepath=org/slf4j/slf4j-api/1.7.36/slf4j-api-1.7.36.pom"
    );
    let c = Coordinate::parse("my org.x:a b").unwrap();
    assert_eq!(
        content_url(&c, "1", ArtifactKind::Binary),
        "https://search.maven.org/remotecontent?filepath=my%20org/x/a%20b/1/a%20b-1.jar"
    );
}

#[test]
fn stale_classes_need_compilation() {
    assert!(needs_compilation(false, &vec![], &vec![], 100));
    assert!(!needs_compilation(true, &vec![5, 7], &vec![8, 9], 100));
    assert!(needs_compilation(true, &vec![5, 10], &vec![8, 9], 100));
    assert!(!needs_compilation(true, &vec![], &vec![], 100));
}
