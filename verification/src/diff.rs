//! Change-impact propagation: from the set of packages that changed to the
//! set of packages impacted, by reverse reachability over the validated
//! dependency graph.
//!
//! A seed with no graph node (the `"root"` pseudo-package, or any unknown
//! name) is itself impacted and has no dependents, so it joins the result
//! alone.

use vstd::prelude::*;

use crate::model::{
    count_unvisited, distinct_names, impacted, lemma_count_update, lemma_impacted_in_closed,
    lemma_pending_pop, lemma_pending_push, lemma_pending_update, lemma_reaches_refl,
    lemma_reaches_step, pending,
};
use crate::monorepo::{find_name, views, DepsGraph};
use crate::pg::edges_of;

verus! {

/// Options of the impact-listing command: the monorepo path and a prefix
/// for each output line, both optional.
pub struct Options {
    pub path: Option<String>,
    pub prefix: Option<String>,
}

/// What the impact-listing command can fail on: the monorepo.
#[derive(Debug)]
pub enum Error {
    Monorepo(crate::monorepo::MonorepoError),
}

/// Every stack entry is a node whose name is impacted.
pub open spec fn stack_ok(nv: Seq<Seq<char>>, stack: Seq<usize>, imp: Set<Seq<char>>) -> bool {
    forall|t: int|
        0 <= t < stack.len() ==> (#[trigger] stack[t]) < nv.len() && imp.contains(
            nv[stack[t] as int],
        )
}

/// Every visited node's name is impacted.
pub open spec fn visited_ok(nv: Seq<Seq<char>>, visited: Seq<bool>, imp: Set<Seq<char>>) -> bool {
    visited.len() == nv.len() && forall|q: int|
        0 <= q < visited.len() && #[trigger] visited[q] ==> imp.contains(nv[q])
}

/// Every dependent of a visited node is visited or still on the stack.
pub open spec fn closure_ok(
    edges: Set<(usize, usize)>,
    visited: Seq<bool>,
    stack: Seq<usize>,
) -> bool {
    forall|q: usize, x: usize|
        q < visited.len() && visited[q as int] && #[trigger] edges.contains((x, q)) ==> pending(
            visited,
            stack,
            x,
        )
}

/// The seed is accounted for: as a pending node of its name, or among the
/// extra names that have no node.
pub open spec fn seed_covered(
    nv: Seq<Seq<char>>,
    visited: Seq<bool>,
    stack: Seq<usize>,
    extra: Seq<Seq<char>>,
    s: Seq<char>,
) -> bool {
    (exists|i: usize| i < nv.len() && #[trigger] nv[i as int] == s && pending(visited, stack, i))
        || extra.contains(s)
}

/// Every seed is accounted for.
pub open spec fn seeds_ok(
    nv: Seq<Seq<char>>,
    visited: Seq<bool>,
    stack: Seq<usize>,
    extra: Seq<Seq<char>>,
    seeds: Set<Seq<char>>,
) -> bool {
    forall|s: Seq<char>| #[trigger]
        seeds.contains(s) ==> seed_covered(nv, visited, stack, extra, s)
}

/// The extra names are impacted, are no node's name, and hold no repeats.
pub open spec fn extra_ok(nv: Seq<Seq<char>>, extra: Seq<Seq<char>>, imp: Set<Seq<char>>) -> bool {
    distinct_names(extra) && forall|t: int|
        0 <= t < extra.len() ==> imp.contains(#[trigger] extra[t]) && !nv.contains(extra[t])
}

/// Computes the packages impacted by the changed ones: every changed name
/// plus every package that depends on a changed package, directly or
/// transitively, each name exactly once, in no promised order. A changed
/// name with no graph node is impacted alone. The graph must be the
/// validated (acyclic) graph of the monorepo.
#[verifier::rlimit(100)]
pub fn get_changed_dep_packages(changed_packages: &Vec<String>, graph: &DepsGraph) -> (r: Vec<
    String,
>)
    requires
        graph.wf(),
        graph.is_acyclic(),
    ensures
        views(r@).to_set() == impacted(graph.edge_set(), views(changed_packages@).to_set()),
        distinct_names(views(r@)),
{
    let ghost nv = graph.names_view();
    let ghost edges = edges_of(graph.pg);
    let ghost ne = graph.edge_set();
    let ghost seeds = views(changed_packages@).to_set();
    let ghost imp = impacted(ne, seeds);

    let n = graph.names.len();
    let mut visited: Vec<bool> = Vec::new();
    let mut t0: usize = 0;
    while t0 < n
        invariant
            t0 <= n,
            visited@.len() == t0,
            forall|q: int| 0 <= q < t0 ==> !visited@[q],
        decreases n - t0,
    {
        visited.push(false);
        t0 += 1;
    }

    let mut stack: Vec<usize> = Vec::new();
    let mut extra: Vec<String> = Vec::new();

    // Seed the traversal: known names go on the stack, unknown names join
    // the extra list once each.
    let mut c: usize = 0;
    while c < changed_packages.len()
        invariant
            c <= changed_packages@.len(),
            visited@.len() == n,
            n == graph.names@.len(),
            graph.wf(),
            nv == graph.names_view(),
            edges == edges_of(graph.pg),
            ne == graph.edge_set(),
            seeds == views(changed_packages@).to_set(),
            imp == impacted(ne, seeds),
            forall|q: int| 0 <= q < n ==> !visited@[q],
            stack_ok(nv, stack@, imp),
            extra_ok(nv, views(extra@), imp),
            forall|c2: int|
                0 <= c2 < c ==> seed_covered(
                    nv,
                    visited@,
                    stack@,
                    views(extra@),
                    (#[trigger] changed_packages@[c2])@,
                ),
        decreases changed_packages@.len() - c,
    {
        let name = &changed_packages[c];
        proof {
            assert(views(changed_packages@)[c as int] == name@);
            assert(seeds.contains(name@));
            lemma_reaches_refl(ne, name@);
            assert(imp.contains(name@));
        }
        match find_name(&graph.names, name) {
            Some(i) => {
                let ghost old_stack = stack@;
                stack.push(i);
                proof {
                    assert(nv[i as int] == name@);
                    assert(stack@[stack@.len() - 1] == i);
                    assert forall|c2: int| 0 <= c2 < c + 1 implies seed_covered(
                        nv,
                        visited@,
                        stack@,
                        views(extra@),
                        (#[trigger] changed_packages@[c2])@,
                    ) by {
                        if c2 < c {
                            if (exists|i2: usize|
                                i2 < nv.len() && #[trigger] nv[i2 as int]
                                    == changed_packages@[c2]@ && pending(
                                    visited@,
                                    old_stack,
                                    i2,
                                )) {
                                let i2 = choose|i2: usize|
                                    i2 < nv.len() && #[trigger] nv[i2 as int]
                                        == changed_packages@[c2]@ && pending(
                                        visited@,
                                        old_stack,
                                        i2,
                                    );
                                lemma_pending_push(visited@, old_stack, i2, i);
                            }
                        } else {
                            assert(pending(visited@, stack@, i));
                        }
                    }
                }
            }
            None => {
                match find_name(&extra, name) {
                    Some(i) => {
                        proof {
                            assert(views(extra@)[i as int] == name@);
                            assert(views(extra@).contains(name@));
                        }
                    }
                    None => {
                        let ghost old_extra = views(extra@);
                        extra.push(name.clone());
                        proof {
                            assert(views(extra@) =~= old_extra.push(name@));
                            let ev = views(extra@);
                            assert forall|i2: int, j2: int|
                                0 <= i2 < ev.len() && 0 <= j2 < ev.len() && i2 != j2 implies ev[i2]
                                != ev[j2] by {
                                if i2 < ev.len() - 1 && j2 < ev.len() - 1 {
                                    assert(old_extra[i2] != old_extra[j2]);
                                }
                            }
                            assert forall|q: int| 0 <= q < nv.len() implies nv[q] != name@ by {
                                assert(graph.names@[q]@ != name@);
                            }
                            assert(!nv.contains(name@));
                            assert(ev[ev.len() - 1] == name@);
                            assert(ev.contains(name@));
                            assert forall|c2: int| 0 <= c2 < c + 1 implies seed_covered(
                                nv,
                                visited@,
                                stack@,
                                ev,
                                (#[trigger] changed_packages@[c2])@,
                            ) by {
                                if c2 < c && old_extra.contains(changed_packages@[c2]@) {
                                    let t = choose|t: int|
                                        0 <= t < old_extra.len() && old_extra[t]
                                            == changed_packages@[c2]@;
                                    assert(ev[t] == changed_packages@[c2]@);
                                }
                            }
                        }
                    }
                }
            }
        }
        c += 1;
    }

    proof {
        assert(seeds_ok(nv, visited@, stack@, views(extra@), seeds)) by {
            assert forall|s: Seq<char>| #[trigger] seeds.contains(s) implies seed_covered(
                nv,
                visited@,
                stack@,
                views(extra@),
                s,
            ) by {
                let c2 = choose|c2: int|
                    0 <= c2 < views(changed_packages@).len() && views(changed_packages@)[c2] == s;
                assert(changed_packages@[c2]@ == s);
            }
        }
    }

    // Walk dependents until the stack drains; the visited check caps every
    // node at one expansion.
    while stack.len() > 0
        invariant
            visited@.len() == n,
            n == graph.names@.len(),
            graph.wf(),
            nv == graph.names_view(),
            edges == edges_of(graph.pg),
            ne == graph.edge_set(),
            seeds == views(changed_packages@).to_set(),
            imp == impacted(ne, seeds),
            stack_ok(nv, stack@, imp),
            visited_ok(nv, visited@, imp),
            closure_ok(edges, visited@, stack@),
            seeds_ok(nv, visited@, stack@, views(extra@), seeds),
            extra_ok(nv, views(extra@), imp),
        decreases count_unvisited(visited@), stack@.len(),
    {
        let ghost old_stack = stack@;
        let ghost old_visited = visited@;
        let popped = stack.pop();
        let i = popped.unwrap();
        proof {
            assert(i == old_stack.last());
            assert(old_stack[old_stack.len() - 1] == i);
            assert(i < n && imp.contains(nv[i as int]));
        }
        if !visited[i] {
            visited[i] = true;
            proof {
                lemma_count_update(old_visited, i as int);
                // every pending node but the popped one stays pending, and
                // the popped one is now visited
                assert forall|x: usize| pending(old_visited, old_stack, x) implies pending(
                    visited@,
                    stack@,
                    x,
                ) by {
                    lemma_pending_pop(old_visited, old_stack, x);
                    if x != i {
                        lemma_pending_update(old_visited, stack@, x, i as int);
                    }
                }
            }
            let nbrs = graph.incoming_of(i);
            let ghost stack1 = stack@;
            let mut t: usize = 0;
            while t < nbrs.len()
                invariant
                    t <= nbrs@.len(),
                    visited@.len() == n,
                    n == graph.names@.len(),
                    graph.wf(),
                    nv == graph.names_view(),
                    edges == edges_of(graph.pg),
                    ne == graph.edge_set(),
                    seeds == views(changed_packages@).to_set(),
                    imp == impacted(ne, seeds),
                    i < n,
                    visited@[i as int],
                    imp.contains(nv[i as int]),
                    forall|x: usize| nbrs@.contains(x) <==> edges.contains((x, i)),
                    forall|t2: int| 0 <= t2 < t ==> stack@.contains(#[trigger] nbrs@[t2]),
                    stack_ok(nv, stack@, imp),
                    visited_ok(nv, visited@, imp),
                    forall|q: usize, x: usize|
                        q < visited@.len() && visited@[q as int] && q != i && #[trigger] edges
                            .contains((x, q)) ==> pending(visited@, stack@, x),
                    seeds_ok(nv, visited@, stack@, views(extra@), seeds),
                    extra_ok(nv, views(extra@), imp),
                decreases nbrs@.len() - t,
            {
                let x = nbrs[t];
                proof {
                    assert(nbrs@.contains(x));
                    assert(edges.contains((x, i)));
                    assert(x < nv.len());
                    // the dependent's name is impacted through one more step
                    assert(ne.contains((nv[x as int], nv[i as int]))) by {
                        assert(edges.contains((x, i)) && x < nv.len() && i < nv.len());
                    }
                    let s = choose|s: Seq<char>|
                        seeds.contains(s) && crate::model::reaches(ne, nv[i as int], s);
                    lemma_reaches_step(ne, nv[x as int], nv[i as int], s);
                    assert(imp.contains(nv[x as int]));
                }
                let ghost before_push = stack@;
                stack.push(x);
                proof {
                    assert(stack@[stack@.len() - 1] == x);
                    assert forall|x2: usize| pending(visited@, before_push, x2) implies pending(
                        visited@,
                        stack@,
                        x2,
                    ) by {
                        lemma_pending_push(visited@, before_push, x2, x);
                    }
                    assert forall|t2: int| 0 <= t2 < t + 1 implies stack@.contains(
                        #[trigger] nbrs@[t2],
                    ) by {
                        if t2 < t {
                            let w = choose|w: int|
                                0 <= w < before_push.len() && before_push[w] == nbrs@[t2];
                            assert(stack@[w] == nbrs@[t2]);
                        } else {
                            assert(stack@.last() == x);
                        }
                    }
                }
                t += 1;
            }
            proof {
                // the popped node's dependents are all pending now
                assert forall|q: usize, x: usize|
                    q < visited@.len() && visited@[q as int] && #[trigger] edges.contains(
                        (x, q),
                    ) implies pending(visited@, stack@, x) by {
                    if q == i {
                        assert(nbrs@.contains(x));
                        let t2 = choose|t2: int| 0 <= t2 < nbrs@.len() && nbrs@[t2] == x;
                        assert(stack@.contains(nbrs@[t2]));
                    }
                }
            }
        } else {
            proof {
                assert forall|x: usize| pending(old_visited, old_stack, x) implies pending(
                    visited@,
                    stack@,
                    x,
                ) by {
                    lemma_pending_pop(old_visited, old_stack, x);
                }
            }
        }
    }

    // The visited names together with the extra names are exactly the
    // impacted set.
    let ghost ev = views(extra@);
    let ghost visited_names = Set::new(
        |a: Seq<char>| exists|q: int| 0 <= q < nv.len() && visited@[q] && #[trigger] nv[q] == a,
    );
    let ghost w = ev.to_set().union(visited_names);
    proof {
        assert(seeds.subset_of(w)) by {
            assert forall|s: Seq<char>| seeds.contains(s) implies w.contains(s) by {
                if (exists|i2: usize|
                    i2 < nv.len() && #[trigger] nv[i2 as int] == s && pending(
                        visited@,
                        stack@,
                        i2,
                    )) {
                    let i2 = choose|i2: usize|
                        i2 < nv.len() && #[trigger] nv[i2 as int] == s && pending(
                            visited@,
                            stack@,
                            i2,
                        );
                    assert(visited_names.contains(s));
                }
            }
        }
        assert forall|a: Seq<char>, b: Seq<char>|
            w.contains(b) && #[trigger] ne.contains((a, b)) implies w.contains(a) by {
            let ij = choose|ij: (usize, usize)|
                #[trigger] edges.contains(ij) && ij.0 < nv.len() && ij.1 < nv.len()
                    && nv[ij.0 as int] == a && nv[ij.1 as int] == b;
            assert(!ev.to_set().contains(b)) by {
                if ev.contains(b) {
                    assert(nv.contains(nv[ij.1 as int]));
                }
            }
            let q = choose|q: int| 0 <= q < nv.len() && visited@[q] && #[trigger] nv[q] == b;
            assert(q == ij.1 as int) by {
                crate::model::lemma_index_of(nv, b, ij.1);
                crate::model::lemma_index_of(nv, b, q as usize);
            }
            assert(pending(visited@, stack@, ij.0));
            assert(visited_names.contains(a));
        }
        lemma_impacted_in_closed(ne, seeds, w);
        assert(w.subset_of(imp)) by {
            assert forall|a: Seq<char>| w.contains(a) implies imp.contains(a) by {
                if ev.to_set().contains(a) {
                    let t = choose|t: int| 0 <= t < ev.len() && ev[t] == a;
                } else {
                    let q = choose|q: int|
                        0 <= q < nv.len() && visited@[q] && #[trigger] nv[q] == a;
                }
            }
        }
        assert(w =~= imp);
    }

    // Assemble the result: the extra names, then each visited node's name.
    let mut result = extra;
    let mut q: usize = 0;
    while q < n
        invariant
            q <= n,
            n == graph.names@.len(),
            nv == graph.names_view(),
            visited@.len() == n,
            distinct_names(nv),
            distinct_names(views(result@)),
            forall|t2: int| 0 <= t2 < ev.len() ==> !nv.contains(#[trigger] ev[t2]),
            forall|x: Seq<char>|
                #[trigger] views(result@).contains(x) <==> (ev.contains(x) || exists|q2: int|
                    0 <= q2 < q && visited@[q2] && #[trigger] nv[q2] == x),
        decreases n - q,
    {
        if visited[q] {
            let ghost old_result = views(result@);
            result.push(graph.names[q].clone());
            proof {
                assert(views(result@) =~= old_result.push(nv[q as int]));
                let rv = views(result@);
                assert(!old_result.contains(nv[q as int])) by {
                    if old_result.contains(nv[q as int]) {
                        if ev.contains(nv[q as int]) {
                            let t2 = choose|t2: int|
                                0 <= t2 < ev.len() && ev[t2] == nv[q as int];
                            assert(!nv.contains(ev[t2]));
                            assert(nv.contains(nv[q as int]));
                        } else {
                            let q2 = choose|q2: int|
                                0 <= q2 < q && visited@[q2] && #[trigger] nv[q2] == nv[q as int];
                            assert(nv[q2] != nv[q as int]);
                        }
                    }
                }
                assert forall|i2: int, j2: int|
                    0 <= i2 < rv.len() && 0 <= j2 < rv.len() && i2 != j2 implies rv[i2]
                    != rv[j2] by {
                    if i2 < rv.len() - 1 && j2 < rv.len() - 1 {
                        assert(old_result[i2] != old_result[j2]);
                    } else if i2 == rv.len() - 1 && j2 < rv.len() - 1 {
                        assert(old_result.contains(old_result[j2]));
                    } else if j2 == rv.len() - 1 && i2 < rv.len() - 1 {
                        assert(old_result.contains(old_result[i2]));
                    }
                }
                assert forall|x: Seq<char>| #[trigger]
                    rv.contains(x) <==> (ev.contains(x) || exists|q2: int|
                        0 <= q2 < q + 1 && visited@[q2] && #[trigger] nv[q2] == x) by {
                    if rv.contains(x) {
                        let t2 = choose|t2: int| 0 <= t2 < rv.len() && rv[t2] == x;
                        if t2 < rv.len() - 1 {
                            assert(old_result.contains(x));
                            if !ev.contains(x) {
                                let q2 = choose|q2: int|
                                    0 <= q2 < q && visited@[q2] && #[trigger] nv[q2] == x;
                                assert(0 <= q2 < q + 1 && visited@[q2] && nv[q2] == x);
                            }
                        } else {
                            assert(visited@[q as int] && nv[q as int] == x);
                        }
                    }
                    if ev.contains(x) {
                        assert(old_result.contains(x));
                        let t2 = choose|t2: int|
                            0 <= t2 < old_result.len() && old_result[t2] == x;
                        assert(rv[t2] == x);
                        assert(rv.contains(x));
                    } else if (exists|q2: int|
                        0 <= q2 < q + 1 && visited@[q2] && #[trigger] nv[q2] == x) {
                        let q2 = choose|q2: int|
                            0 <= q2 < q + 1 && visited@[q2] && #[trigger] nv[q2] == x;
                        if q2 < q {
                            assert(old_result.contains(x));
                            let t2 = choose|t2: int|
                                0 <= t2 < old_result.len() && old_result[t2] == x;
                            assert(rv[t2] == x);
                        } else {
                            assert(rv[rv.len() - 1] == x);
                        }
                        assert(rv.contains(x));
                    }
                }
            }
        } else {
            proof {
                let rv = views(result@);
                assert forall|x: Seq<char>| #[trigger]
                    rv.contains(x) <==> (ev.contains(x) || exists|q2: int|
                        0 <= q2 < q + 1 && visited@[q2] && #[trigger] nv[q2] == x) by {
                    if rv.contains(x) {
                        if !ev.contains(x) {
                            let q2 = choose|q2: int|
                                0 <= q2 < q && visited@[q2] && #[trigger] nv[q2] == x;
                            assert(0 <= q2 < q + 1 && visited@[q2] && nv[q2] == x);
                        }
                    }
                    if ev.contains(x) {
                        assert(rv.contains(x));
                    } else if (exists|q2: int|
                        0 <= q2 < q + 1 && visited@[q2] && #[trigger] nv[q2] == x) {
                        let q2 = choose|q2: int|
                            0 <= q2 < q + 1 && visited@[q2] && #[trigger] nv[q2] == x;
                        assert(q2 != q);
                        assert(0 <= q2 < q && visited@[q2] && nv[q2] == x);
                        assert(rv.contains(x));
                    }
                }
            }
        }
        q += 1;
    }
    proof {
        assert(views(result@).to_set() =~= imp) by {
            assert forall|x: Seq<char>| views(result@).to_set().contains(x) implies imp.contains(
                x,
            ) by {
                assert(views(result@).contains(x));
                if ev.contains(x) {
                    assert(ev.to_set().contains(x));
                } else {
                    let q2 = choose|q2: int|
                        0 <= q2 < n && visited@[q2] && #[trigger] nv[q2] == x;
                    assert(visited_names.contains(x));
                }
            }
            assert forall|x: Seq<char>| imp.contains(x) implies views(result@).to_set().contains(
                x,
            ) by {
                assert(w.contains(x));
                if ev.to_set().contains(x) {
                    assert(ev.contains(x));
                } else {
                    assert(visited_names.contains(x));
                }
                assert(views(result@).contains(x));
            }
        }
    }
    result
}

/// The path prefix that places a file inside a package directory.
pub open spec fn packages_prefix() -> Seq<char> {
    seq!['p', 'a', 'c', 'k', 'a', 'g', 'e', 's', '/']
}

/// The sentinel package name for a change outside any package directory.
pub open spec fn root_name() -> Seq<char> {
    seq!['r', 'o', 'o', 't']
}

/// The position of the first `/` at or after `i`, or the length if none.
pub open spec fn first_slash_from(path: Seq<char>, i: int) -> int
    decreases path.len() - i,
{
    if i < 0 || i >= path.len() {
        path.len() as int
    } else if path[i] == '/' {
        i
    } else {
        first_slash_from(path, i + 1)
    }
}

/// Where the slashes of a stretch are known, the first one is pinned down.
proof fn lemma_first_slash(path: Seq<char>, i: int, j: int)
    requires
        0 <= i <= j <= path.len(),
        forall|k: int| i <= k < j ==> path[k] != '/',
        j == path.len() || path[j] == '/',
    ensures
        first_slash_from(path, i) == j,
    decreases j - i,
{
    if i < j {
        assert(path[i] != '/');
        lemma_first_slash(path, i + 1, j);
    }
}

/// The owning package of a changed path: under the convention
/// `packages/<name>/...` the captured `<name>` segment, and otherwise the
/// sentinel `root` (a change outside every package directory).
pub open spec fn classify_spec(path: Seq<char>) -> Seq<char> {
    if path.len() >= 9 && path.subrange(0, 9) == packages_prefix() && first_slash_from(path, 9)
        < path.len() {
        path.subrange(9, first_slash_from(path, 9))
    } else {
        root_name()
    }
}

/// Maps one changed file path to the name of the package it belongs to,
/// or to `root` when it lies outside every package directory.
pub fn classify_path(path: &str) -> (r: String)
    ensures
        r@ == classify_spec(path@),
{
    proof {
        reveal_strlit("packages/");
        reveal_strlit("root");
    }
    let prefix = "packages/";
    proof {
        assert(prefix@ =~= packages_prefix());
        assert("root"@ =~= root_name());
    }
    let n = path.unicode_len();
    if n < 9 {
        return "root".to_owned();
    }
    let mut i: usize = 0;
    while i < 9
        invariant
            i <= 9,
            n == path@.len(),
            n >= 9,
            prefix@ == packages_prefix(),
            forall|k: int| 0 <= k < i ==> path@[k] == packages_prefix()[k],
        decreases 9 - i,
    {
        if path.get_char(i) != prefix.get_char(i) {
            proof {
                reveal_strlit("root");
                assert("root"@ =~= root_name());
                assert(path@.subrange(0, 9)[i as int] != packages_prefix()[i as int]);
            }
            return "root".to_owned();
        }
        i += 1;
    }
    proof {
        assert(path@.subrange(0, 9) =~= packages_prefix());
    }
    let mut j: usize = 9;
    while j < n
        invariant
            9 <= j <= n,
            n == path@.len(),
            path@.subrange(0, 9) == packages_prefix(),
            forall|k: int| 9 <= k < j ==> path@[k] != '/',
        decreases n - j,
    {
        if path.get_char(j) == '/' {
            proof {
                lemma_first_slash(path@, 9, j as int);
            }
            let name = path.substring_char(9, j);
            return name.to_owned();
        }
        j += 1;
    }
    proof {
        lemma_first_slash(path@, 9, n as int);
    }
    "root".to_owned()
}

/// The set of packages owning a change: one name per present path.
pub open spec fn spec_changed_set(files: Seq<Option<String>>) -> Set<Seq<char>> {
    Set::new(
        |a: Seq<char>|
            exists|i: int|
                0 <= i < files.len() && (#[trigger] files[i]) is Some && classify_spec(
                    files[i]->0@,
                ) == a,
    )
}

/// Maps the changed file paths to the set of changed packages: each present
/// path is classified, absent paths (one side of a rename) are skipped, and
/// each name appears once, in no promised order.
pub fn get_changed_packages(changed_files: Vec<Option<String>>) -> (r: Vec<String>)
    ensures
        views(r@).to_set() == spec_changed_set(changed_files@),
        distinct_names(views(r@)),
{
    let ghost fv = changed_files@;
    let mut out: Vec<String> = Vec::new();
    let mut c: usize = 0;
    while c < changed_files.len()
        invariant
            c <= fv.len(),
            changed_files@ == fv,
            distinct_names(views(out@)),
            forall|t: int|
                0 <= t < out@.len() ==> spec_changed_set(fv).contains((#[trigger] out@[t])@),
            forall|i: int|
                0 <= i < c && (#[trigger] fv[i]) is Some ==> views(out@).contains(
                    classify_spec(fv[i]->0@),
                ),
        decreases fv.len() - c,
    {
        match &changed_files[c] {
            None => {}
            Some(p) => {
                proof {
                    assert(fv[c as int] is Some && fv[c as int]->0 == *p);
                }
                let name = classify_path(p.as_str());
                let ghost old_view = views(out@);
                match find_name(&out, &name) {
                    Some(u) => {
                        proof {
                            assert(views(out@)[u as int] == classify_spec(p@));
                            assert(views(out@).contains(classify_spec(p@)));
                        }
                    }
                    None => {
                        let ghost old_out = out@;
                        out.push(name);
                        proof {
                            assert(views(out@) =~= old_view.push(classify_spec(p@)));
                            let ov = views(out@);
                            assert forall|i2: int, j2: int|
                                0 <= i2 < ov.len() && 0 <= j2 < ov.len() && i2 != j2 implies ov[i2]
                                != ov[j2] by {
                                if i2 < ov.len() - 1 && j2 < ov.len() - 1 {
                                    assert(old_view[i2] != old_view[j2]);
                                }
                            }
                            assert(ov[ov.len() - 1] == classify_spec(p@));
                            assert forall|t: int| 0 <= t < out@.len() implies spec_changed_set(
                                fv,
                            ).contains((#[trigger] out@[t])@) by {
                                if t < out@.len() - 1 {
                                    assert(out@[t] == old_out[t]);
                                    assert(spec_changed_set(fv).contains(old_out[t]@));
                                } else {
                                    assert(out@[t]@ == classify_spec(fv[c as int]->0@));
                                    assert(fv[c as int] is Some);
                                    assert(spec_changed_set(fv).contains(
                                        classify_spec(fv[c as int]->0@),
                                    ));
                                }
                            }
                            assert forall|i: int|
                                0 <= i < c + 1 && (#[trigger] fv[i]) is Some implies views(
                                out@,
                            ).contains(classify_spec(fv[i]->0@)) by {
                                if i < c {
                                    let t = choose|t: int|
                                        0 <= t < old_view.len() && old_view[t] == classify_spec(
                                            fv[i]->0@,
                                        );
                                    assert(ov[t] == classify_spec(fv[i]->0@));
                                } else {
                                    assert(ov.contains(ov[ov.len() - 1]));
                                }
                            }
                        }
                    }
                }
            }
        }
        c += 1;
    }
    proof {
        assert(views(out@).to_set() =~= spec_changed_set(fv)) by {
            assert forall|a: Seq<char>| views(out@).to_set().contains(a)
                implies spec_changed_set(fv).contains(a) by {
                let t = choose|t: int| 0 <= t < views(out@).len() && views(out@)[t] == a;
                assert(out@[t]@ == a);
                assert(spec_changed_set(fv).contains(out@[t]@));
            }
            assert forall|a: Seq<char>| spec_changed_set(fv).contains(a) implies views(
                out@,
            ).to_set().contains(a) by {
                let i = choose|i: int|
                    0 <= i < fv.len() && (#[trigger] fv[i]) is Some && classify_spec(fv[i]->0@)
                        == a;
                assert(views(out@).contains(classify_spec(fv[i]->0@)));
            }
        }
    }
    out
}

} // verus!
