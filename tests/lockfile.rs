use gallade::coordinates::Coordinate;
use gallade::digest::integrity_of;
use gallade::lockfile::{FetchedPackage, Lockfile, PackageInfo};
use gallade::prune::DependencyPruner;
use gallade::repository::Repository;
use gallade::resolver::{DependencyGraph, DependencyResolver, ReverseDependencyGraph};
use gallade::version::MavenVersion;

fn package(deps: &[&str]) -> PackageInfo {
    PackageInfo::new(
        "1.0.0".to_string(),
        "test-repo".to_string(),
        "sha256:test".to_string(),
        deps.iter().map(|d| d.to_string()).collect(),
    )
}

fn sorted_keys(lf: &Lockfile) -> Vec<String> {
    let mut k = lf.keys();
    k.sort();
    k
}

#[test]
fn remove_keeps_shared_transitive() {
    let mut lf = Lockfile::new();
    lf.insert("g:a".to_string(), package(&["g:c"]));
    lf.insert("g:b".to_string(), package(&["g:c"]));
    lf.insert("g:c".to_string(), package(&[]));
    let resolver = DependencyResolver::new(Repository::new("/r".to_string()));
    resolver.remove(Coordinate::parse("g:a").unwrap(), &mut lf);
    assert_eq!(sorted_keys(&lf), vec!["g:b".to_string(), "g:c".to_string()]);
}

#[test]
fn remove_drops_exclusive_subtree() {
    let mut lf = Lockfile::new();
    lf.insert("g:a".to_string(), package(&["g:x", "g:y"]));
    lf.insert("g:x".to_string(), package(&[]));
    lf.insert("g:y".to_string(), package(&["g:x"]));
    let resolver = DependencyResolver::new(Repository::new("/r".to_string()));
    resolver.remove(Coordinate::parse("g:a").unwrap(), &mut lf);
    assert_eq!(lf.len(), 0);
}

#[test]
fn remove_survives_cycles_and_versions() {
    let mut lf = Lockfile::new();
    lf.insert("g:a".to_string(), package(&["g:b"]));
    lf.insert("g:b".to_string(), package(&["g:a", "g:d"]));
    lf.insert("g:d".to_string(), package(&[]));
    lf.insert("g:e".to_string(), package(&["g:d"]));
    let resolver = DependencyResolver::new(Repository::new("/r".to_string()));
    resolver.remove(Coordinate::parse("g:a:9.9").unwrap(), &mut lf);
    assert_eq!(sorted_keys(&lf), vec!["g:d".to_string(), "g:e".to_string()]);
}

#[test]
fn pruner_marks_reachable_keys() {
    let mut lf = Lockfile::new();
    lf.insert("g:a".to_string(), package(&["g:b"]));
    lf.insert("g:b".to_string(), package(&["g:c"]));
    lf.insert("g:c".to_string(), package(&[]));
    lf.insert("g:z".to_string(), package(&["g:c"]));
    let mut pruner = DependencyPruner::new();
    pruner.mark_tree(&Coordinate::parse("g:a").unwrap(), &lf, true);
    pruner.mark_tree(&Coordinate::parse("g:z").unwrap(), &lf, false);
    let mut removable = pruner.get_removable();
    removable.sort();
    assert_eq!(removable, vec!["g:a".to_string(), "g:b".to_string()]);
}

#[test]
fn lockfile_insert_get_remove() {
    let mut lf = Lockfile::new();
    assert_eq!(lf.format_version(), 1);
    lf.insert("test:package".to_string(), package(&[]));
    assert_eq!(lf.get("test:package").unwrap().version, "1.0.0");
    lf.insert("test:package".to_string(), package(&["x:y"]));
    assert_eq!(lf.len(), 1);
    assert_eq!(lf.get("test:package").unwrap().deps, vec!["x:y".to_string()]);
    lf.remove("test:package");
    assert!(lf.get("test:package").is_none());
}

#[test]
fn integrity_is_sha256_hex() {
    assert_eq!(
        integrity_of(b"abc"),
        "sha256:ba7816bf8f01cfea414140de5dae2223b00361a396177a9cb410ff61f20015ad"
    );
    assert_eq!(
        integrity_of(b""),
        "sha256:e3b0c44298fc1c149afbf4c8996fb92427ae41e4649b934ca495991b7852b855"
    );
}

#[test]
fn merge_records_package_once() {
    let mut g = DependencyGraph::new();
    let a = Coordinate::parse("org:a").unwrap();
    let z = Coordinate::parse("org:z").unwrap();
    let b = Coordinate::parse("org:b").unwrap();
    g.add_edge(&a, &z);
    g.add_edge(&a, &b);
    g.add_edge(&a, &z);
    let v = MavenVersion::parse("1.2").unwrap();
    g.add_resolution(&a, v.clone());

    assert_eq!(Lockfile::get_stringified_edges(&g, &a), vec!["org:b".to_string(), "org:z".to_string()]);

    let mut lf = Lockfile::new();
    assert!(lf.needs_entry(&a, &v));
    lf.merge_package(&g, &a, &v, b"jar bytes", "MavenCentral".to_string());
    assert!(!lf.needs_entry(&a, &v));
    let info = lf.get("org:a").unwrap();
    assert_eq!(info.version, "1.2.0");
    assert_eq!(info.repository, "MavenCentral");
    assert_eq!(info.integrity, integrity_of(b"jar bytes"));
    assert_eq!(info.deps, vec!["org:b".to_string(), "org:z".to_string()]);
    assert!(lf.needs_entry(&a, &MavenVersion::parse("1.3").unwrap()));
}

#[test]
fn reverse_graph_lists_dependents() {
    let mut lf = Lockfile::new();
    lf.insert("g:a".to_string(), package(&["g:c"]));
    lf.insert("g:b".to_string(), package(&["g:c"]));
    lf.insert("g:c".to_string(), package(&[]));
    let rev = ReverseDependencyGraph::from_lockfile(&lf);
    let c = Coordinate::parse("g:c").unwrap();
    assert!(rev.has_dependents(&c));
    let mut d = rev.get_dependents(&c);
    d.sort();
    assert_eq!(d, vec!["g:a".to_string(), "g:b".to_string()]);
    assert!(!rev.has_dependents(&Coordinate::parse("g:a").unwrap()));
}

#[test]
fn merging_a_graph_twice_fetches_nothing_the_second_time() {
    let mut g = DependencyGraph::new();
    let a = Coordinate::parse("org:a").unwrap();
    let b = Coordinate::parse("org:b").unwrap();
    g.add_edge(&a, &b);
    g.add_resolution(&b, MavenVersion::parse("2.0").unwrap());
    g.add_resolution(&a, MavenVersion::parse("1.0").unwrap());

    let mut lf = Lockfile::new();
    lf.insert("org:b".to_string(), PackageInfo::new("2.0.0".to_string(), "R".to_string(), "sha256:x".to_string(), vec![]));
    let plan = lf.pending_merges(&g);
    assert_eq!(plan, vec![1]);
    let fetched = vec![FetchedPackage { jar: b"a-jar".to_vec(), origin: "MavenCentral".to_string() }];
    lf.merge_graph(&g, &plan, &fetched);
    let a_info = lf.get("org:a").unwrap();
    assert_eq!(a_info.version, "1.0.0");
    assert_eq!(a_info.deps, vec!["org:b".to_string()]);
    assert_eq!(a_info.integrity, integrity_of(b"a-jar"));

    assert!(lf.pending_merges(&g).is_empty());
    let before: Vec<(String, String)> = lf.keys().iter().map(|k| (k.clone(), lf.get(k).unwrap().integrity.clone())).collect();
    lf.merge_graph(&g, &vec![], &vec![]);
    let after: Vec<(String, String)> = lf.keys().iter().map(|k| (k.clone(), lf.get(k).unwrap().integrity.clone())).collect();
    assert_eq!(before, after);
}
