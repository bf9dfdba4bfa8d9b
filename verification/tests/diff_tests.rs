use std::collections::BTreeSet;

use morp::diff::{classify_path, get_changed_dep_packages, get_changed_packages};
use morp::monorepo::{Monorepo, PackageJson};

fn pkg(name: &str, deps: &[&str]) -> PackageJson {
    PackageJson {
        name: name.to_string(),
        dependencies: if deps.is_empty() {
            None
        } else {
            Some(deps.iter().map(|d| (d.to_string(), "1.0.0".to_string())).collect())
        },
    }
}

fn graph_of(pkgs: Vec<PackageJson>) -> morp::monorepo::DepsGraph {
    Monorepo::load(pkgs).get_deps_graph().ok().expect("acyclic graph expected")
}

fn propagate(seeds: &[&str], graph: &morp::monorepo::DepsGraph) -> BTreeSet<String> {
    let seeds: Vec<String> = seeds.iter().map(|s| s.to_string()).collect();
    get_changed_dep_packages(&seeds, graph).into_iter().collect()
}

fn name_set(names: &[&str]) -> BTreeSet<String> {
    names.iter().map(|s| s.to_string()).collect()
}

#[test]
fn direct_dependent_is_impacted() {
    // a depends on b; a change of b impacts both
    let graph = graph_of(vec![pkg("a", &["b"]), pkg("b", &[])]);
    assert_eq!(propagate(&["b"], &graph), name_set(&["a", "b"]));
}

#[test]
fn transitive_dependents_are_impacted() {
    let graph = graph_of(vec![pkg("a", &["b"]), pkg("b", &["c"]), pkg("c", &[])]);
    assert_eq!(propagate(&["c"], &graph), name_set(&["a", "b", "c"]));
    assert_eq!(propagate(&["b"], &graph), name_set(&["a", "b"]));
}

#[test]
fn unrelated_seed_impacts_only_itself() {
    let graph = graph_of(vec![pkg("a", &["b"]), pkg("b", &[]), pkg("c", &[])]);
    assert_eq!(propagate(&["c"], &graph), name_set(&["c"]));
}

#[test]
fn unknown_seed_appears_alone() {
    let graph = graph_of(vec![pkg("a", &["b"]), pkg("b", &[])]);
    assert_eq!(propagate(&["root"], &graph), name_set(&["root"]));
}

#[test]
fn seed_order_and_repeats_do_not_matter() {
    let graph = graph_of(vec![
        pkg("a", &["b"]),
        pkg("b", &["c"]),
        pkg("c", &[]),
        pkg("d", &[]),
    ]);
    let one = propagate(&["c", "d"], &graph);
    let two = propagate(&["d", "c"], &graph);
    let three = propagate(&["c", "d", "c", "c"], &graph);
    assert_eq!(one, two);
    assert_eq!(one, three);
    assert_eq!(one, name_set(&["a", "b", "c", "d"]));
}

#[test]
fn propagation_is_idempotent() {
    let graph = graph_of(vec![pkg("a", &["b"]), pkg("b", &["c"]), pkg("c", &[])]);
    let once: Vec<String> = propagate(&["c"], &graph).into_iter().collect();
    let again = get_changed_dep_packages(&once, &graph);
    let again: BTreeSet<String> = again.into_iter().collect();
    assert_eq!(again, name_set(&["a", "b", "c"]));
}

#[test]
fn diamond_counts_each_package_once() {
    let graph = graph_of(vec![
        pkg("top", &["left", "right"]),
        pkg("left", &["base"]),
        pkg("right", &["base"]),
        pkg("base", &[]),
    ]);
    let result: Vec<String> = {
        let seeds = vec!["base".to_string()];
        get_changed_dep_packages(&seeds, &graph)
    };
    assert_eq!(result.len(), 4);
    let set: BTreeSet<String> = result.into_iter().collect();
    assert_eq!(set, name_set(&["top", "left", "right", "base"]));
}

#[test]
fn classify_package_path() {
    assert_eq!(classify_path("packages/foo/src/index.js"), "foo");
    assert_eq!(classify_path("packages/a-b/package.json"), "a-b");
}

#[test]
fn classify_outside_path_is_root() {
    assert_eq!(classify_path("README.md"), "root");
    assert_eq!(classify_path("tools/build.sh"), "root");
    assert_eq!(classify_path("packages/loose-file.md"), "root");
    assert_eq!(classify_path(""), "root");
}

#[test]
fn changed_packages_classify_and_dedup() {
    let files = vec![
        Some("packages/foo/src/a.js".to_string()),
        None,
        Some("packages/foo/src/b.js".to_string()),
        Some("packages/bar/lib.rs".to_string()),
        Some("README.md".to_string()),
    ];
    let set: BTreeSet<String> = get_changed_packages(files).into_iter().collect();
    assert_eq!(set, name_set(&["foo", "bar", "root"]));
}

#[test]
fn changed_packages_of_no_files_is_empty() {
    assert!(get_changed_packages(vec![]).is_empty());
    assert!(get_changed_packages(vec![None, None]).is_empty());
}
