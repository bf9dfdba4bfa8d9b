//! Trusted interface to the petgraph directed graph that holds the
//! dependency relation, exactly as the tool keeps it: a `DiGraphMap` whose
//! nodes are package indices and whose edge weights carry no meaning.
//!
//! The graph's contents are named by two uninterpreted spec functions,
//! `nodes_of` and `edges_of`; every wrapper states what the called petgraph
//! method does to them, as petgraph's source shows it.

use vstd::prelude::*;

verus! {

/// Relies on petgraph's `GraphMap` type: declared here so that values of
/// `DiGraphMap` can stand in signatures and fields; opaque to verification.
#[verifier::external_type_specification]
#[verifier::external_body]
#[verifier::reject_recursive_types(N)]
#[verifier::reject_recursive_types(E)]
#[verifier::reject_recursive_types(Ty)]
#[verifier::reject_recursive_types(S)]
pub struct ExGraphMap<N, E, Ty, S>(petgraph::graphmap::GraphMap<N, E, Ty, S>)
where
    S: std::hash::BuildHasher,
;

/// Relies on petgraph's `Directed` marker type (the edge-type parameter of a
/// directed `GraphMap`).
#[verifier::external_type_specification]
#[verifier::external_body]
pub struct ExDirected(petgraph::Directed);

/// The set of nodes a `DiGraphMap` holds.
pub uninterp spec fn nodes_of(g: petgraph::graphmap::DiGraphMap<usize, i32>) -> Set<usize>;

/// The set of directed edges a `DiGraphMap` holds, each as (source, target).
pub uninterp spec fn edges_of(g: petgraph::graphmap::DiGraphMap<usize, i32>) -> Set<(usize, usize)>;

/// Relies on `GraphMap::default` via `DiGraphMap::new`: a graph with no
/// nodes and no edges.
#[verifier::external_body]
pub(crate) fn pg_new() -> (g: petgraph::graphmap::DiGraphMap<usize, i32>)
    ensures
        nodes_of(g) == Set::<usize>::empty(),
        edges_of(g) == Set::<(usize, usize)>::empty(),
{
    petgraph::graphmap::DiGraphMap::new()
}

/// Relies on `GraphMap::add_node`: inserts the node (a no-op if present)
/// and touches no edge.
#[verifier::external_body]
pub(crate) fn pg_add_node(g: &mut petgraph::graphmap::DiGraphMap<usize, i32>, n: usize)
    ensures
        nodes_of(*final(g)) == nodes_of(*old(g)).insert(n),
        edges_of(*final(g)) == edges_of(*old(g)),
{
    g.add_node(n);
}

/// Relies on `GraphMap::add_edge`: inserts the directed edge `a -> b`,
/// inserting either endpoint if missing; parallel edges collapse.
#[verifier::external_body]
pub(crate) fn pg_add_edge(g: &mut petgraph::graphmap::DiGraphMap<usize, i32>, a: usize, b: usize)
    ensures
        nodes_of(*final(g)) == nodes_of(*old(g)).insert(a).insert(b),
        edges_of(*final(g)) == edges_of(*old(g)).insert((a, b)),
{
    g.add_edge(a, b, 0);
}

/// Relies on `GraphMap::neighbors_directed` with the incoming direction:
/// yields exactly the sources of the edges into `a`, each once (petgraph
/// keeps no parallel edges), and nothing for an absent node.
#[verifier::external_body]
pub(crate) fn pg_incoming(g: &petgraph::graphmap::DiGraphMap<usize, i32>, a: usize) -> (r: Vec<
    usize,
>)
    ensures
        forall|x: usize| r@.contains(x) <==> edges_of(*g).contains((x, a)),
{
    g.neighbors_directed(a, petgraph::Direction::Incoming).collect()
}

/// Relies on `petgraph::algo::is_cyclic_directed`: true exactly when the
/// graph holds a directed cycle (a self loop included).
#[verifier::external_body]
pub(crate) fn pg_is_cyclic(g: &petgraph::graphmap::DiGraphMap<usize, i32>) -> (r: bool)
    ensures
        r == crate::model::has_cycle(edges_of(*g)),
{
    petgraph::algo::is_cyclic_directed(g)
}

/// Relies on `GraphMap::all_edges`: yields each directed edge once with
/// its weight; the weights are dropped in conversion.
#[verifier::external_body]
pub(crate) fn pg_all_edges(g: &petgraph::graphmap::DiGraphMap<usize, i32>) -> (r: Vec<
    (usize, usize),
>)
    ensures
        forall|e: (usize, usize)| r@.contains(e) <==> edges_of(*g).contains(e),
{
    g.all_edges().map(|(a, b, _)| (a, b)).collect()
}

} // verus!
