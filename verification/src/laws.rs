//! Laws of impact propagation: the impacted set is a function of the edge
//! set and the seed set alone, distributes over unions of seeds, and is a
//! closure (running it twice adds nothing).

use vstd::prelude::*;

use crate::model::{impacted, is_path, lemma_reaches_refl, reaches};

verus! {

/// Chaining two dependency chains is a dependency chain: reachability is
/// transitive.
#[verifier::rlimit(100)]
pub proof fn lemma_reaches_trans<T>(edges: Set<(T, T)>, a: T, b: T, c: T)
    requires
        reaches(edges, a, b),
        reaches(edges, b, c),
    ensures
        reaches(edges, a, c),
{
    let p = choose|p: Seq<T>| is_path(edges, p) && p.first() == a && p.last() == b;
    let r = choose|r: Seq<T>| is_path(edges, r) && r.first() == b && r.last() == c;
    if r.len() == 1 {
        assert(b == c);
    } else {
        let q = p + r.subrange(1, r.len() as int);
        assert forall|k: int| 0 <= k < q.len() - 1 implies edges.contains(
            (#[trigger] q[k], q[k + 1]),
        ) by {
            if k < p.len() - 1 {
                assert(edges.contains((p[k], p[k + 1])));
            } else if k == p.len() - 1 {
                assert(q[k] == p.last() && q[k + 1] == r[1]);
                assert(edges.contains((r[0], r[1])));
            } else {
                let k2 = k - p.len() + 1;
                assert(q[k] == r[k2] && q[k + 1] == r[k2 + 1]);
                assert(edges.contains((r[k2], r[k2 + 1])));
            }
        }
        assert(is_path(edges, q) && q.first() == a && q.last() == c);
    }
}

/// Propagation reads its seeds as a set: two seed collections with the
/// same elements, however ordered or repeated, are impacted alike.
pub proof fn lemma_impacted_seed_order<T>(edges: Set<(T, T)>, seeds1: Set<T>, seeds2: Set<T>)
    requires
        seeds1 == seeds2,
    ensures
        impacted(edges, seeds1) == impacted(edges, seeds2),
{
}

/// Seeds can be propagated together or one part at a time: the impacted
/// set distributes over the union of seed sets, so the order in which
/// seeds are added cannot matter.
pub proof fn lemma_impacted_union<T>(edges: Set<(T, T)>, seeds1: Set<T>, seeds2: Set<T>)
    ensures
        impacted(edges, seeds1.union(seeds2)) == impacted(edges, seeds1).union(
            impacted(edges, seeds2),
        ),
{
    assert(impacted(edges, seeds1.union(seeds2)) =~= impacted(edges, seeds1).union(
        impacted(edges, seeds2),
    )) by {
        assert forall|a: T| impacted(edges, seeds1).union(impacted(edges, seeds2)).contains(a)
            implies impacted(edges, seeds1.union(seeds2)).contains(a) by {
            if impacted(edges, seeds1).contains(a) {
                let s = choose|s: T| seeds1.contains(s) && reaches(edges, a, s);
                assert(seeds1.union(seeds2).contains(s));
            } else {
                let s = choose|s: T| seeds2.contains(s) && reaches(edges, a, s);
                assert(seeds1.union(seeds2).contains(s));
            }
        }
    }
}

/// Every seed is impacted: the impacted set grows the seed set, never
/// shrinks it.
pub proof fn lemma_impacted_superset<T>(edges: Set<(T, T)>, seeds: Set<T>)
    ensures
        seeds.subset_of(impacted(edges, seeds)),
{
    assert forall|s: T| seeds.contains(s) implies impacted(edges, seeds).contains(s) by {
        lemma_reaches_refl(edges, s);
    }
}

/// Propagation is a closure: propagating the impacted set again returns
/// it unchanged.
pub proof fn lemma_impacted_idempotent<T>(edges: Set<(T, T)>, seeds: Set<T>)
    ensures
        impacted(edges, impacted(edges, seeds)) == impacted(edges, seeds),
{
    let imp = impacted(edges, seeds);
    assert(impacted(edges, imp) =~= imp) by {
        assert forall|a: T| impacted(edges, imp).contains(a) implies imp.contains(a) by {
            let m = choose|m: T| imp.contains(m) && reaches(edges, a, m);
            let s = choose|s: T| seeds.contains(s) && reaches(edges, m, s);
            lemma_reaches_trans(edges, a, m, s);
        }
        lemma_impacted_superset(edges, imp);
    }
}

} // verus!
