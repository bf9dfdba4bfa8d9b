//! The monorepo and its dependency graph.
//!
//! A monorepo is a fixed list of package manifests, each a name with the
//! names of the packages it depends on. `get_deps_graph` builds the directed
//! dependency graph over those manifests and certifies it acyclic, the
//! structural invariant every later traversal rests on.
//!
//! Reading manifests off the disk is a data source outside this library: a
//! caller hands `load` the records it gathered and keeps the read and parse
//! errors of `MonorepoError` for the paths that failed.

use vstd::prelude::*;

use crate::model::{distinct_names, edges_in_range, has_cycle, lemma_cycle_iff, name_edges};
use crate::pg::{edges_of, nodes_of, pg_add_edge, pg_add_node, pg_is_cyclic, pg_new};

verus! {

/// One package manifest: the package's unique name and its declared
/// dependencies, each a dependency name with an opaque version specifier
/// (the version text plays no part in the graph).
pub struct PackageJson {
    pub name: String,
    pub dependencies: Option<Vec<(String, String)>>,
}

impl PackageJson {
    /// The declared dependency names; a missing mapping means none.
    pub open spec fn dep_names(self) -> Seq<Seq<char>> {
        match self.dependencies {
            None => Seq::empty(),
            Some(v) => v@.map_values(|p: (String, String)| p.0@),
        }
    }
}

/// A monorepo: the packages found under one root, fixed for the run.
pub struct Monorepo {
    pub packages: Vec<PackageJson>,
}

/// What can go wrong while loading a monorepo and building its graph. The
/// load errors carry the cause as text and the offending path; they are
/// produced by the caller that reads the disk, never by this library.
#[derive(Debug)]
pub enum MonorepoError {
    PackagesDirRead(String),
    PackagesDirEntryRead(String),
    PackageJsonRead(String),
    PackageJsonDeserialization { error: String, path: String },
    CyclicDependencies,
}

/// The views of a list of names.
pub open spec fn views(s: Seq<String>) -> Seq<Seq<char>> {
    s.map_values(|x: String| x@)
}

/// The node set the graph of a package list must have: one node per
/// declared package name.
pub open spec fn spec_node_set(pkgs: Seq<PackageJson>) -> Set<Seq<char>> {
    pkgs.map_values(|p: PackageJson| p.name@).to_set()
}

/// The edge set the graph of a package list must have: an edge from a
/// package to each declared dependency that is itself a package of the
/// list; a dependency name with no such package makes no edge.
pub open spec fn spec_edge_set(pkgs: Seq<PackageJson>) -> Set<(Seq<char>, Seq<char>)> {
    Set::new(
        |e: (Seq<char>, Seq<char>)|
            exists|a: int, b: int|
                0 <= a < pkgs.len() && 0 <= b < pkgs.len() && (#[trigger] pkgs[a]).name@ == e.0
                    && pkgs[a].dep_names().contains(e.1) && (#[trigger] pkgs[b]).name@ == e.1,
    )
}

/// Every table entry is the name of one of the first `upto` packages.
pub open spec fn table_sound(names: Seq<Seq<char>>, pkgs: Seq<PackageJson>, upto: int) -> bool {
    forall|i: int|
        0 <= i < names.len() ==> exists|k: int| 0 <= k < upto && #[trigger] names[i] == pkgs[k].name@
}

/// Each of the first `upto` packages has its name in the table.
pub open spec fn table_complete(names: Seq<Seq<char>>, pkgs: Seq<PackageJson>, upto: int) -> bool {
    forall|k: int|
        0 <= k < upto ==> exists|i: int|
            0 <= i < names.len() && names[i] == (#[trigger] pkgs[k]).name@
}

/// Every edge is justified: some package bears the source name and
/// declares the target name as a dependency.
pub open spec fn edges_sound(
    names: Seq<Seq<char>>,
    pkgs: Seq<PackageJson>,
    edges: Set<(usize, usize)>,
) -> bool {
    forall|e: (usize, usize)| #[trigger]
        edges.contains(e) ==> e.0 < names.len() && e.1 < names.len() && exists|k: int|
            0 <= k < pkgs.len() && (#[trigger] pkgs[k]).name@ == names[e.0 as int]
                && pkgs[k].dep_names().contains(names[e.1 as int])
}

/// Every dependency of package `k` that names a package of the list has
/// its edge.
pub open spec fn package_covered(
    names: Seq<Seq<char>>,
    pkgs: Seq<PackageJson>,
    k: int,
    edges: Set<(usize, usize)>,
) -> bool {
    forall|d: int|
        0 <= d < pkgs[k].dep_names().len() && spec_node_set(pkgs).contains(
            #[trigger] pkgs[k].dep_names()[d],
        ) ==> exists|i: usize, j: usize|
            #![trigger edges.contains((i, j))]
            edges.contains((i, j)) && i < names.len() && j < names.len() && names[i as int]
                == pkgs[k].name@ && names[j as int] == pkgs[k].dep_names()[d]
}

/// The dependency graph of a monorepo: a table of the distinct package
/// names and a petgraph directed graph over their indices. Built by
/// `Monorepo::get_deps_graph`, which also certifies it acyclic.
pub struct DepsGraph {
    pub names: Vec<String>,
    pub pg: petgraph::graphmap::DiGraphMap<usize, i32>,
}

impl DepsGraph {
    /// The name table, as mathematical values.
    pub open spec fn names_view(self) -> Seq<Seq<char>> {
        views(self.names@)
    }

    /// Well-formed: the table holds each name once, the petgraph nodes are
    /// exactly the table's indices, and every edge joins two of them.
    pub open spec fn wf(self) -> bool {
        &&& distinct_names(self.names_view())
        &&& nodes_of(self.pg) == Set::new(|x: usize| x < self.names@.len())
        &&& edges_in_range(self.names_view(), edges_of(self.pg))
    }

    /// The set of package names the graph holds.
    pub open spec fn node_set(self) -> Set<Seq<char>> {
        self.names_view().to_set()
    }

    /// The dependency relation, as a set of (dependent, dependency) name
    /// pairs.
    pub open spec fn edge_set(self) -> Set<(Seq<char>, Seq<char>)> {
        name_edges(self.names_view(), edges_of(self.pg))
    }

    /// The graph holds no directed cycle.
    pub open spec fn is_acyclic(self) -> bool {
        !has_cycle(self.edge_set())
    }

    /// The package names, one per node, each exactly once.
    pub fn node_names(&self) -> (r: &Vec<String>)
        ensures
            views(r@) == self.names_view(),
    {
        &self.names
    }

    /// The incoming neighbors of the node at `i`: the packages that depend
    /// directly on it.
    pub(crate) fn incoming_of(&self, i: usize) -> (r: Vec<usize>)
        ensures
            forall|x: usize| r@.contains(x) <==> edges_of(self.pg).contains((x, i)),
    {
        crate::pg::pg_incoming(&self.pg, i)
    }
}

/// Whether some entry of `names` reads `target`, and where.
pub(crate) fn find_name(names: &Vec<String>, target: &String) -> (r: Option<usize>)
    ensures
        match r {
            Some(i) => i < names@.len() && names@[i as int]@ == target@,
            None => forall|i: int| 0 <= i < names@.len() ==> names@[i]@ != target@,
        },
{
    let mut i: usize = 0;
    while i < names.len()
        invariant
            i <= names@.len(),
            forall|k: int| 0 <= k < i ==> names@[k]@ != target@,
        decreases names@.len() - i,
    {
        if names[i] == *target {
            return Some(i);
        }
        i += 1;
    }
    None
}

/// The table of the distinct package names; the first occurrence wins.
fn build_name_table(pkgs: &Vec<PackageJson>) -> (names: Vec<String>)
    ensures
        distinct_names(views(names@)),
        table_sound(views(names@), pkgs@, pkgs@.len() as int),
        table_complete(views(names@), pkgs@, pkgs@.len() as int),
{
    let ghost pv = pkgs@;
    let mut names: Vec<String> = Vec::new();
    let mut k: usize = 0;
    while k < pkgs.len()
        invariant
            k <= pv.len(),
            pkgs@ == pv,
            distinct_names(views(names@)),
            table_sound(views(names@), pv, k as int),
            table_complete(views(names@), pv, k as int),
        decreases pv.len() - k,
    {
        let ghost old_view = views(names@);
        match find_name(&names, &pkgs[k].name) {
            Some(i) => {
                proof {
                    // the name is already the entry at i
                    let nv = views(names@);
                    assert(nv[i as int] == pv[k as int].name@);
                    assert forall|k2: int| 0 <= k2 < k + 1 implies exists|i2: int|
                        0 <= i2 < nv.len() && nv[i2] == (#[trigger] pv[k2]).name@ by {
                        if k2 == k {
                            assert(i < nv.len() && nv[i as int] == pv[k2].name@);
                        }
                    }
                }
            }
            None => {
                names.push(pkgs[k].name.clone());
                proof {
                    assert(views(names@) =~= old_view.push(pv[k as int].name@));
                    let nv = views(names@);
                    assert forall|i: int, j: int|
                        0 <= i < nv.len() && 0 <= j < nv.len() && i != j implies nv[i] != nv[j] by {
                        if i < nv.len() - 1 && j < nv.len() - 1 {
                            assert(old_view[i] != old_view[j]);
                        }
                    }
                    assert(nv[nv.len() - 1] == pv[k as int].name@);
                    assert forall|k2: int| 0 <= k2 < k + 1 implies exists|i2: int|
                        0 <= i2 < nv.len() && nv[i2] == (#[trigger] pv[k2]).name@ by {
                        if k2 < k {
                            let i2 = choose|i2: int|
                                0 <= i2 < old_view.len() && old_view[i2] == (#[trigger] pv[k2]).name@;
                            assert(nv[i2] == old_view[i2]);
                        } else {
                            assert(nv[nv.len() - 1] == pv[k2].name@);
                        }
                    }
                }
            }
        }
        k += 1;
    }
    names
}

/// One petgraph node per table index.
fn build_nodes(n: usize) -> (g: petgraph::graphmap::DiGraphMap<usize, i32>)
    ensures
        nodes_of(g) == Set::new(|x: usize| x < n),
        edges_of(g) == Set::<(usize, usize)>::empty(),
{
    let mut g = pg_new();
    proof {
        assert(nodes_of(g) =~= Set::new(|x: usize| x < 0usize));
    }
    let mut i: usize = 0;
    while i < n
        invariant
            i <= n,
            nodes_of(g) == Set::new(|x: usize| x < i),
            edges_of(g) == Set::<(usize, usize)>::empty(),
        decreases n - i,
    {
        pg_add_node(&mut g, i);
        proof {
            assert(nodes_of(g) =~= Set::new(|x: usize| x < i + 1));
        }
        i += 1;
    }
    g
}

/// Adds the edges of package `k`: one for each declared dependency that
/// resolves to a package of the list; the rest are outside the monorepo
/// and silently make no edge.
fn add_package_edges(
    g: &mut petgraph::graphmap::DiGraphMap<usize, i32>,
    pkgs: &Vec<PackageJson>,
    names: &Vec<String>,
    k: usize,
)
    requires
        k < pkgs@.len(),
        distinct_names(views(names@)),
        table_sound(views(names@), pkgs@, pkgs@.len() as int),
        table_complete(views(names@), pkgs@, pkgs@.len() as int),
        nodes_of(*old(g)) == Set::new(|x: usize| x < names@.len()),
        edges_sound(views(names@), pkgs@, edges_of(*old(g))),
    ensures
        nodes_of(*final(g)) == nodes_of(*old(g)),
        edges_of(*old(g)).subset_of(edges_of(*final(g))),
        edges_sound(views(names@), pkgs@, edges_of(*final(g))),
        package_covered(views(names@), pkgs@, k as int, edges_of(*final(g))),
{
    let ghost pv = pkgs@;
    let ghost nv = views(names@);
    let io = find_name(names, &pkgs[k].name);
    proof {
        let i2 = choose|i2: int| 0 <= i2 < nv.len() && nv[i2] == (#[trigger] pv[k as int]).name@;
        assert(names@[i2]@ == pv[k as int].name@);
    }
    let src = io.unwrap();
    match &pkgs[k].dependencies {
        None => {
            proof {
                assert(pv[k as int].dep_names().len() == 0);
            }
        }
        Some(deps) => {
            let ghost dn = pv[k as int].dep_names();
            let mut d: usize = 0;
            while d < deps.len()
                invariant
                    d <= deps@.len(),
                    deps@.map_values(|p: (String, String)| p.0@) == dn,
                    dn == pv[k as int].dep_names(),
                    k < pv.len(),
                    pkgs@ == pv,
                    views(names@) == nv,
                    src < nv.len(),
                    nv[src as int] == pv[k as int].name@,
                    distinct_names(nv),
                    table_sound(nv, pv, pv.len() as int),
                    table_complete(nv, pv, pv.len() as int),
                    nodes_of(*g) == Set::new(|x: usize| x < names@.len()),
                    edges_of(*old(g)).subset_of(edges_of(*g)),
                    edges_sound(nv, pv, edges_of(*g)),
                    forall|d2: int|
                        0 <= d2 < d && spec_node_set(pv).contains(#[trigger] dn[d2]) ==> exists|
                            i: usize,
                            j: usize,
                        |
                            #![trigger edges_of(*g).contains((i, j))]
                            edges_of(*g).contains((i, j)) && i < nv.len() && j < nv.len()
                                && nv[i as int] == pv[k as int].name@ && nv[j as int] == dn[d2],
                decreases deps@.len() - d,
            {
                proof {
                    assert(dn[d as int] == deps@[d as int].0@);
                }
                match find_name(names, &deps[d].0) {
                    None => {
                        // the dependency resolves to no package of the list
                        proof {
                            if spec_node_set(pv).contains(dn[d as int]) {
                                let mv = pv.map_values(|p: PackageJson| p.name@);
                                let k3 = choose|k3: int|
                                    0 <= k3 < mv.len() && #[trigger] mv[k3] == dn[d as int];
                                assert(pv[k3].name@ == dn[d as int]);
                                let i2 = choose|i2: int|
                                    0 <= i2 < nv.len() && nv[i2] == (#[trigger] pv[k3]).name@;
                                assert(names@[i2]@ == dn[d as int]);
                                assert(false);
                            }
                        }
                    }
                    Some(dst) => {
                        let ghost before = edges_of(*g);
                        pg_add_edge(g, src, dst);
                        proof {
                            assert(nodes_of(*g) =~= Set::new(|x: usize| x < names@.len()));
                            assert(dn.contains(dn[d as int]));
                            assert forall|e: (usize, usize)| #[trigger]
                                edges_of(*g).contains(e) implies e.0 < nv.len() && e.1 < nv.len()
                                && exists|k2: int|
                                0 <= k2 < pv.len() && (#[trigger] pv[k2]).name@ == nv[e.0 as int]
                                    && pv[k2].dep_names().contains(nv[e.1 as int]) by {
                                if e != (src, dst) {
                                    assert(before.contains(e));
                                } else {
                                    assert(nv[dst as int] == dn[d as int]);
                                    assert(pv[k as int].dep_names().contains(nv[dst as int]));
                                }
                            }
                            assert forall|d2: int|
                                0 <= d2 < d + 1 && spec_node_set(pv).contains(
                                    #[trigger] dn[d2],
                                ) implies exists|i: usize, j: usize|
                                #![trigger edges_of(*g).contains((i, j))]
                                edges_of(*g).contains((i, j)) && i < nv.len() && j < nv.len()
                                    && nv[i as int] == pv[k as int].name@ && nv[j as int]
                                    == dn[d2] by {
                                if d2 < d {
                                    let (i, j) = choose|i: usize, j: usize|
                                        #![trigger before.contains((i, j))]
                                        before.contains((i, j)) && i < nv.len() && j < nv.len()
                                            && nv[i as int] == pv[k as int].name@ && nv[j as int]
                                            == dn[d2];
                                    assert(edges_of(*g).contains((i, j)));
                                } else {
                                    assert(edges_of(*g).contains((src, dst)) && src < nv.len()
                                        && dst < nv.len() && nv[src as int] == pv[k as int].name@
                                        && nv[dst as int] == dn[d2]);
                                }
                            }
                        }
                    }
                }
                d += 1;
            }
        }
    }
}

impl Monorepo {
    /// The package list, as mathematical values.
    pub open spec fn view(self) -> Seq<PackageJson> {
        self.packages@
    }

    /// Takes the manifests a caller gathered, one per package directory,
    /// as the monorepo of this run. Reading and deserializing them is the
    /// caller's part; a failure there is its `MonorepoError` load error.
    pub fn load(packages: Vec<PackageJson>) -> (m: Monorepo)
        ensures
            m@ == packages@,
    {
        Monorepo { packages }
    }

    /// Builds the dependency graph: one node per package name, one edge
    /// from each package to each dependency resolved within the list
    /// (unresolved names are outside the monorepo and silently make no
    /// edge), and rejects the graph if it holds a directed cycle. Two
    /// packages declaring the same name share one node, carrying the
    /// union of their edges.
    #[verifier::rlimit(100)]
    pub fn get_deps_graph(&self) -> (r: Result<DepsGraph, MonorepoError>)
        ensures
            match r {
                Ok(g) => {
                    &&& g.wf()
                    &&& g.is_acyclic()
                    &&& g.node_set() == spec_node_set(self@)
                    &&& g.edge_set() == spec_edge_set(self@)
                    &&& !has_cycle(spec_edge_set(self@))
                },
                Err(e) => e is CyclicDependencies && has_cycle(spec_edge_set(self@)),
            },
    {
        let pkgs = &self.packages;
        let ghost pv = self.packages@;
        let names = build_name_table(pkgs);
        let ghost nv = views(names@);
        let mut g = build_nodes(names.len());

        let mut k: usize = 0;
        while k < pkgs.len()
            invariant
                k <= pv.len(),
                pkgs@ == pv,
                views(names@) == nv,
                distinct_names(nv),
                table_sound(nv, pv, pv.len() as int),
                table_complete(nv, pv, pv.len() as int),
                nodes_of(g) == Set::new(|x: usize| x < names@.len()),
                edges_sound(nv, pv, edges_of(g)),
                forall|k2: int| 0 <= k2 < k ==> package_covered(nv, pv, k2, edges_of(g)),
            decreases pv.len() - k,
        {
            let ghost before = edges_of(g);
            add_package_edges(&mut g, pkgs, &names, k);
            proof {
                // coverage of earlier packages survives: the edge set only grew
                assert forall|k2: int| 0 <= k2 < k + 1 implies package_covered(
                    nv,
                    pv,
                    k2,
                    edges_of(g),
                ) by {
                    if k2 < k {
                        assert forall|d: int|
                            0 <= d < pv[k2].dep_names().len() && spec_node_set(pv).contains(
                                #[trigger] pv[k2].dep_names()[d],
                            ) implies exists|i: usize, j: usize|
                            #![trigger edges_of(g).contains((i, j))]
                            edges_of(g).contains((i, j)) && i < nv.len() && j < nv.len()
                                && nv[i as int] == pv[k2].name@ && nv[j as int]
                                == pv[k2].dep_names()[d] by {
                            assert(package_covered(nv, pv, k2, before));
                            let (i, j) = choose|i: usize, j: usize|
                                #![trigger before.contains((i, j))]
                                before.contains((i, j)) && i < nv.len() && j < nv.len()
                                    && nv[i as int] == pv[k2].name@ && nv[j as int]
                                    == pv[k2].dep_names()[d];
                            assert(before.contains((i, j)));
                            assert(edges_of(g).contains((i, j)));
                        }
                    }
                }
            }
            k += 1;
        }

        let graph = DepsGraph { names, pg: g };
        proof {
            lemma_built_graph_sets(nv, pv, edges_of(graph.pg));
            lemma_cycle_iff(nv, edges_of(graph.pg));
        }
        let cyclic = pg_is_cyclic(&graph.pg);
        if cyclic {
            Err(MonorepoError::CyclicDependencies)
        } else {
            Ok(graph)
        }
    }
}

/// A table and edge set built from a package list carry exactly the node
/// and edge sets the list asks for.
proof fn lemma_built_graph_sets(
    nv: Seq<Seq<char>>,
    pv: Seq<PackageJson>,
    edges: Set<(usize, usize)>,
)
    requires
        distinct_names(nv),
        table_sound(nv, pv, pv.len() as int),
        table_complete(nv, pv, pv.len() as int),
        edges_sound(nv, pv, edges),
        forall|k2: int| 0 <= k2 < pv.len() ==> package_covered(nv, pv, k2, edges),
    ensures
        nv.to_set() == spec_node_set(pv),
        name_edges(nv, edges) == spec_edge_set(pv),
        edges_in_range(nv, edges),
{
    let mv = pv.map_values(|p: PackageJson| p.name@);
    assert(nv.to_set() =~= spec_node_set(pv)) by {
        assert forall|a: Seq<char>| nv.to_set().contains(a) implies spec_node_set(pv).contains(
            a,
        ) by {
            let i2 = choose|i2: int| 0 <= i2 < nv.len() && nv[i2] == a;
            let k2 = choose|k2: int| 0 <= k2 < pv.len() && #[trigger] nv[i2] == pv[k2].name@;
            assert(mv[k2] == a);
        }
        assert forall|a: Seq<char>| spec_node_set(pv).contains(a) implies nv.to_set().contains(
            a,
        ) by {
            let k2 = choose|k2: int| 0 <= k2 < mv.len() && #[trigger] mv[k2] == a;
            assert(pv[k2].name@ == a);
            let i2 = choose|i2: int| 0 <= i2 < nv.len() && nv[i2] == (#[trigger] pv[k2]).name@;
            assert(nv.contains(nv[i2]));
        }
    }
    assert(name_edges(nv, edges) =~= spec_edge_set(pv)) by {
        assert forall|e: (Seq<char>, Seq<char>)| name_edges(nv, edges).contains(e)
            implies spec_edge_set(pv).contains(e) by {
            let ij = choose|ij: (usize, usize)|
                #[trigger] edges.contains(ij) && ij.0 < nv.len() && ij.1 < nv.len()
                    && nv[ij.0 as int] == e.0 && nv[ij.1 as int] == e.1;
            let k2 = choose|k2: int|
                0 <= k2 < pv.len() && (#[trigger] pv[k2]).name@ == nv[ij.0 as int]
                    && pv[k2].dep_names().contains(nv[ij.1 as int]);
            let k3 = choose|k3: int|
                0 <= k3 < pv.len() && #[trigger] nv[ij.1 as int] == pv[k3].name@;
            assert(0 <= k2 < pv.len() && 0 <= k3 < pv.len() && pv[k2].name@ == e.0
                && pv[k2].dep_names().contains(e.1) && pv[k3].name@ == e.1);
        }
        assert forall|e: (Seq<char>, Seq<char>)| spec_edge_set(pv).contains(e)
            implies name_edges(nv, edges).contains(e) by {
            let (a, b) = choose|a: int, b: int|
                0 <= a < pv.len() && 0 <= b < pv.len() && (#[trigger] pv[a]).name@ == e.0
                    && pv[a].dep_names().contains(e.1) && (#[trigger] pv[b]).name@ == e.1;
            let d2 = choose|d2: int|
                0 <= d2 < pv[a].dep_names().len() && pv[a].dep_names()[d2] == e.1;
            assert(mv[b] == e.1);
            assert(spec_node_set(pv).contains(pv[a].dep_names()[d2]));
            assert(package_covered(nv, pv, a, edges));
            let (i2, j2) = choose|i2: usize, j2: usize|
                #![trigger edges.contains((i2, j2))]
                edges.contains((i2, j2)) && i2 < nv.len() && j2 < nv.len() && nv[i2 as int]
                    == pv[a].name@ && nv[j2 as int] == pv[a].dep_names()[d2];
            assert(edges.contains((i2, j2)) && nv[i2 as int] == e.0 && nv[j2 as int] == e.1);
        }
    }
}

} // verus!
