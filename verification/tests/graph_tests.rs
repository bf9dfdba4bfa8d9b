use std::collections::BTreeSet;

use morp::monorepo::{Monorepo, MonorepoError, PackageJson};

fn pkg(name: &str, deps: &[&str]) -> PackageJson {
    PackageJson {
        name: name.to_string(),
        dependencies: if deps.is_empty() {
            None
        } else {
            Some(deps.iter().map(|d| (d.to_string(), "1.0.0".to_string())).collect())
        },
    }
}

fn name_set(names: &[&str]) -> BTreeSet<String> {
    names.iter().map(|s| s.to_string()).collect()
}

/// Parses the DOT text back into its node and edge name sets.
fn parse_dot(text: &str) -> (BTreeSet<String>, BTreeSet<(String, String)>) {
    let mut nodes = BTreeSet::new();
    let mut edges = BTreeSet::new();
    for line in text.lines() {
        if !line.starts_with('"') {
            continue;
        }
        let quoted: Vec<&str> = line.split('"').collect();
        if line.contains(" -> ") {
            edges.insert((quoted[1].to_string(), quoted[3].to_string()));
        } else {
            nodes.insert(quoted[1].to_string());
        }
    }
    (nodes, edges)
}

#[test]
fn builds_nodes_and_resolved_edges() {
    let repo = Monorepo::load(vec![
        pkg("p1", &["p2"]),
        pkg("p2", &[]),
        pkg("p3", &["p1", "external-lib"]),
    ]);
    let graph = repo.get_deps_graph().ok().expect("acyclic graph expected");
    let names: BTreeSet<String> = graph.node_names().iter().cloned().collect();
    assert_eq!(names, name_set(&["p1", "p2", "p3"]));
    let (nodes, edges) = parse_dot(&morp::graph::export_dot(&graph));
    assert_eq!(nodes, name_set(&["p1", "p2", "p3"]));
    let expected: BTreeSet<(String, String)> =
        vec![("p1", "p2"), ("p3", "p1")].into_iter().map(|(a, b)| (a.to_string(), b.to_string())).collect();
    assert_eq!(edges, expected);
}

#[test]
fn external_dependency_makes_no_edge_or_node() {
    let repo = Monorepo::load(vec![pkg("a", &["serde"])]);
    let graph = repo.get_deps_graph().ok().expect("acyclic graph expected");
    assert_eq!(graph.node_names().len(), 1);
    let (nodes, edges) = parse_dot(&morp::graph::export_dot(&graph));
    assert_eq!(nodes, name_set(&["a"]));
    assert!(edges.is_empty());
}

#[test]
fn cyclic_graph_is_rejected() {
    let repo = Monorepo::load(vec![
        pkg("a", &["b"]),
        pkg("b", &["c"]),
        pkg("c", &["a"]),
    ]);
    match repo.get_deps_graph() {
        Err(MonorepoError::CyclicDependencies) => {}
        _ => panic!("a cycle must be rejected"),
    }
}

#[test]
fn self_dependency_is_a_cycle() {
    let repo = Monorepo::load(vec![pkg("a", &["a"])]);
    match repo.get_deps_graph() {
        Err(MonorepoError::CyclicDependencies) => {}
        _ => panic!("a self loop must be rejected"),
    }
}

#[test]
fn acyclic_chain_validates() {
    let repo = Monorepo::load(vec![pkg("a", &["b"]), pkg("b", &["c"]), pkg("c", &[])]);
    assert!(repo.get_deps_graph().is_ok());
}

#[test]
fn empty_monorepo_builds_empty_graph() {
    let repo = Monorepo::load(vec![]);
    let graph = repo.get_deps_graph().ok().expect("empty graph is acyclic");
    assert!(graph.node_names().is_empty());
}

#[test]
fn export_round_trips_nodes_and_edges() {
    let repo = Monorepo::load(vec![
        pkg("app", &["core", "util"]),
        pkg("core", &["util"]),
        pkg("util", &[]),
        pkg("docs", &[]),
    ]);
    let graph = repo.get_deps_graph().ok().expect("acyclic graph expected");
    let text = morp::graph::export_dot(&graph);
    assert!(text.starts_with("digraph {\n"));
    assert!(text.ends_with("}\n"));
    let (nodes, edges) = parse_dot(&text);
    assert_eq!(nodes, name_set(&["app", "core", "util", "docs"]));
    let expected: BTreeSet<(String, String)> = vec![
        ("app", "core"),
        ("app", "util"),
        ("core", "util"),
    ]
    .into_iter()
    .map(|(a, b)| (a.to_string(), b.to_string()))
    .collect();
    assert_eq!(edges, expected);
}

#[test]
fn duplicate_names_share_one_node() {
    let repo = Monorepo::load(vec![pkg("a", &["b"]), pkg("a", &["c"]), pkg("b", &[]), pkg("c", &[])]);
    let graph = repo.get_deps_graph().ok().expect("acyclic graph expected");
    assert_eq!(graph.node_names().len(), 3);
    let (_, edges) = parse_dot(&morp::graph::export_dot(&graph));
    let expected: BTreeSet<(String, String)> =
        vec![("a", "b"), ("a", "c")].into_iter().map(|(a, b)| (a.to_string(), b.to_string())).collect();
    assert_eq!(edges, expected);
}
