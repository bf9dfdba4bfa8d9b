//! The mathematical model of a dependency graph: paths, reachability,
//! cycles and the impacted-set closure, stated over plain sets of edges.
//!
//! Edges are directed pairs `(a, b)` meaning "a depends on b". The model is
//! generic in the node type: the executable code uses it both over package
//! indices (`usize`) and over package names (`Seq<char>`).

use vstd::prelude::*;

verus! {

/// A path: a nonempty sequence of nodes in which each node depends on the
/// next.
pub open spec fn is_path<T>(edges: Set<(T, T)>, p: Seq<T>) -> bool {
    p.len() >= 1 && forall|k: int| 0 <= k < p.len() - 1 ==> edges.contains((#[trigger] p[k], p[k + 1]))
}

/// `a` depends on `b`, directly or transitively; reflexive (the empty
/// chain of edges counts).
pub open spec fn reaches<T>(edges: Set<(T, T)>, a: T, b: T) -> bool {
    exists|p: Seq<T>| is_path(edges, p) && p.first() == a && p.last() == b
}

/// The graph holds a directed cycle: a path that closes on itself through
/// at least one edge.
pub open spec fn has_cycle<T>(edges: Set<(T, T)>) -> bool {
    exists|p: Seq<T>| #[trigger] is_path(edges, p) && p.len() >= 2 && p.first() == p.last()
}

/// The packages impacted by the seed set: every name that depends,
/// directly or transitively, on a seed, the seeds themselves included.
pub open spec fn impacted<T>(edges: Set<(T, T)>, seeds: Set<T>) -> Set<T> {
    Set::new(|a: T| exists|s: T| seeds.contains(s) && reaches(edges, a, s))
}

/// Every node is trivially a path to itself, so `reaches` is reflexive and
/// every seed is impacted.
pub proof fn lemma_reaches_refl<T>(edges: Set<(T, T)>, a: T)
    ensures
        reaches(edges, a, a),
{
    let p = seq![a];
    assert(is_path(edges, p) && p.first() == a && p.last() == a);
}

/// Prepending one dependency step keeps reachability: if `a` depends on
/// `b` and `b` reaches `c`, then `a` reaches `c`.
pub proof fn lemma_reaches_step<T>(edges: Set<(T, T)>, a: T, b: T, c: T)
    requires
        edges.contains((a, b)),
        reaches(edges, b, c),
    ensures
        reaches(edges, a, c),
{
    let p = choose|p: Seq<T>| is_path(edges, p) && p.first() == b && p.last() == c;
    let q = seq![a] + p;
    assert forall|k: int| 0 <= k < q.len() - 1 implies edges.contains((#[trigger] q[k], q[k + 1])) by {
        if k == 0 {
            assert(q[0] == a && q[1] == p[0]);
        } else {
            assert(q[k] == p[k - 1] && q[k + 1] == p[k]);
        }
    }
    assert(is_path(edges, q) && q.first() == a && q.last() == c);
}

/// No two names are the same.
pub open spec fn distinct_names(names: Seq<Seq<char>>) -> bool {
    forall|i: int, j: int|
        0 <= i < names.len() && 0 <= j < names.len() && i != j ==> names[i] != names[j]
}

/// Every edge joins two indices of the name table.
pub open spec fn edges_in_range(names: Seq<Seq<char>>, edges: Set<(usize, usize)>) -> bool {
    forall|e: (usize, usize)| #[trigger] edges.contains(e) ==> e.0 < names.len() && e.1 < names.len()
}

/// The index-level edge set read back at the level of names.
pub open spec fn name_edges(names: Seq<Seq<char>>, edges: Set<(usize, usize)>) -> Set<
    (Seq<char>, Seq<char>),
> {
    Set::new(
        |e: (Seq<char>, Seq<char>)|
            exists|ij: (usize, usize)|
                #[trigger] edges.contains(ij) && ij.0 < names.len() && ij.1 < names.len()
                    && names[ij.0 as int] == e.0 && names[ij.1 as int] == e.1,
    )
}

/// The index of a name in the table.
pub open spec fn index_of(names: Seq<Seq<char>>, a: Seq<char>) -> usize {
    choose|i: usize| i < names.len() && names[i as int] == a
}

/// With distinct names, a name pins its index down.
pub proof fn lemma_index_of(names: Seq<Seq<char>>, a: Seq<char>, i: usize)
    requires
        distinct_names(names),
        i < names.len(),
        names[i as int] == a,
    ensures
        index_of(names, a) == i,
{
    assert(exists|k: usize| k < names.len() && names[k as int] == a);
}

/// A cycle among the indices is a cycle among the names and the other way
/// round.
pub proof fn lemma_cycle_iff(names: Seq<Seq<char>>, edges: Set<(usize, usize)>)
    requires
        distinct_names(names),
        edges_in_range(names, edges),
    ensures
        has_cycle(edges) <==> has_cycle(name_edges(names, edges)),
{
    let nedges = name_edges(names, edges);
    if has_cycle(edges) {
        let p = choose|p: Seq<usize>| #[trigger] is_path(edges, p) && p.len() >= 2 && p.first()
            == p.last();
        let q = p.map_values(|x: usize| names[x as int]);
        assert forall|k: int| 0 <= k < q.len() - 1 implies nedges.contains(
            (#[trigger] q[k], q[k + 1]),
        ) by {
            assert(edges.contains((p[k], p[k + 1])));
        }
        assert(is_path(nedges, q) && q.len() >= 2 && q.first() == q.last());
    }
    if has_cycle(nedges) {
        let q = choose|q: Seq<Seq<char>>| #[trigger] is_path(nedges, q) && q.len() >= 2
            && q.first() == q.last();
        let p = q.map_values(|a: Seq<char>| index_of(names, a));
        assert forall|k: int| 0 <= k < p.len() - 1 implies edges.contains(
            (#[trigger] p[k], p[k + 1]),
        ) by {
            assert(nedges.contains((q[k], q[k + 1])));
            let ij = choose|ij: (usize, usize)|
                #[trigger] edges.contains(ij) && ij.0 < names.len() && ij.1 < names.len()
                    && names[ij.0 as int] == q[k] && names[ij.1 as int] == q[k + 1];
            lemma_index_of(names, q[k], ij.0);
            lemma_index_of(names, q[k + 1], ij.1);
        }
        assert(is_path(edges, p) && p.len() >= 2 && p.first() == p.last());
    }
}

/// Walking a path backwards out of a set closed under incoming edges never
/// leaves the set.
proof fn lemma_path_in_closed<T>(edges: Set<(T, T)>, closed: Set<T>, p: Seq<T>)
    requires
        is_path(edges, p),
        closed.contains(p.last()),
        forall|a: T, b: T| closed.contains(b) && #[trigger] edges.contains((a, b)) ==> closed.contains(a),
    ensures
        closed.contains(p.first()),
    decreases p.len(),
{
    if p.len() == 1 {
    } else {
        let rest = p.subrange(1, p.len() as int);
        assert forall|k: int| 0 <= k < rest.len() - 1 implies edges.contains(
            (#[trigger] rest[k], rest[k + 1]),
        ) by {
            assert(edges.contains((p[k + 1], p[k + 2])));
        }
        assert(rest.last() == p.last());
        lemma_path_in_closed(edges, closed, rest);
        assert(edges.contains((p[0], p[1])) && p[1] == rest.first());
    }
}

/// A set that holds every seed and is closed under incoming edges holds
/// the whole impacted set.
pub proof fn lemma_impacted_in_closed<T>(edges: Set<(T, T)>, seeds: Set<T>, closed: Set<T>)
    requires
        seeds.subset_of(closed),
        forall|a: T, b: T| closed.contains(b) && #[trigger] edges.contains((a, b)) ==> closed.contains(a),
    ensures
        impacted(edges, seeds).subset_of(closed),
{
    assert forall|x: T| impacted(edges, seeds).contains(x) implies closed.contains(x) by {
        let s = choose|s: T| seeds.contains(s) && reaches(edges, x, s);
        let p = choose|p: Seq<T>| is_path(edges, p) && p.first() == x && p.last() == s;
        lemma_path_in_closed(edges, closed, p);
    }
}

/// How many entries of a visited map are still false.
pub open spec fn count_unvisited(v: Seq<bool>) -> nat
    decreases v.len(),
{
    if v.len() == 0 {
        0nat
    } else {
        count_unvisited(v.drop_last()) + (if v.last() {
            0nat
        } else {
            1nat
        })
    }
}

/// Marking one unvisited entry strictly shrinks the count.
pub proof fn lemma_count_update(v: Seq<bool>, i: int)
    requires
        0 <= i < v.len(),
        !v[i],
    ensures
        count_unvisited(v.update(i, true)) < count_unvisited(v),
    decreases v.len(),
{
    let w = v.update(i, true);
    if i == v.len() - 1 {
        assert(w.drop_last() =~= v.drop_last());
        assert(w.last() && !v.last());
    } else {
        assert(w.drop_last() =~= v.drop_last().update(i, true));
        assert(w.last() == v.last());
        lemma_count_update(v.drop_last(), i);
    }
}

/// A node is pending while the traversal still owes it a visit: it is
/// either already visited or waiting on the stack.
pub open spec fn pending(visited: Seq<bool>, stack: Seq<usize>, x: usize) -> bool {
    x < visited.len() && (visited[x as int] || stack.contains(x))
}

/// Pushing onto the stack keeps every pending node pending.
pub proof fn lemma_pending_push(visited: Seq<bool>, stack: Seq<usize>, x: usize, y: usize)
    requires
        pending(visited, stack, x),
    ensures
        pending(visited, stack.push(y), x),
{
    if stack.contains(x) {
        let t = choose|t: int| 0 <= t < stack.len() && stack[t] == x;
        assert(stack.push(y)[t] == x);
    }
}

/// Marking a node visited keeps every pending node pending.
pub proof fn lemma_pending_update(visited: Seq<bool>, stack: Seq<usize>, x: usize, i: int)
    requires
        pending(visited, stack, x),
        0 <= i < visited.len(),
    ensures
        pending(visited.update(i, true), stack, x),
{
}

/// Popping the stack keeps a node pending unless it was the popped one.
pub proof fn lemma_pending_pop(visited: Seq<bool>, stack: Seq<usize>, x: usize)
    requires
        pending(visited, stack, x),
        stack.len() > 0,
    ensures
        pending(visited, stack.take(stack.len() - 1), x) || x == stack.last(),
{
    if !visited[x as int] && x != stack.last() {
        let t = choose|t: int| 0 <= t < stack.len() && stack[t] == x;
        assert(stack.take(stack.len() - 1)[t] == x);
    }
}

} // verus!
