//! Counting the distinct vote targets across both attestation collections.

use vstd::prelude::*;

use crate::candidates::contains_root;
use crate::candidates::distinct_roots;
use crate::candidates::has_root;
use crate::candidates::root_set;
use crate::instance::AttestationData;
use crate::instance::Instance;

verus! {

broadcast use vstd::set::group_set_axioms;

/// The number of distinct vote targets appearing in either attestation
/// collection of the instance.
pub fn n_unique_roots(instance: &Instance) -> (r: usize)
    ensures
        r == root_set(instance.aggregated_attestations@).union(
            root_set(instance.unaggregated_attestations@),
        ).len(),
{
    let mut all = distinct_roots(&instance.aggregated_attestations);
    let rb = distinct_roots(&instance.unaggregated_attestations);
    let n = rb.len();
    for i in 0..n
        invariant
            n == rb@.len(),
            forall|d: AttestationData|
                rb@.contains(d) <==> has_root(instance.unaggregated_attestations@, d),
            all@.no_duplicates(),
            forall|d: AttestationData|
                all@.contains(d) <==> (has_root(instance.aggregated_attestations@, d) || (
                exists|q: int| 0 <= q < i && rb@[q] == d)),
    {
        let d = rb[i];
        proof {
            assert(rb@[i as int] == d);
        }
        if !contains_root(&all, &d) {
            let ghost all_old = all@;
            all.push(d);
            proof {
                assert forall|a: int, b: int|
                    0 <= a < all@.len() && 0 <= b < all@.len() && a != b implies all@[a]
                    != all@[b] by {
                    if a < all@.len() - 1 && b < all@.len() - 1 {
                        assert(all@[a] == all_old[a] && all@[b] == all_old[b]);
                    } else if a == all@.len() - 1 {
                        assert(all@[b] == all_old[b]);
                        assert(all_old.contains(all@[b]));
                    } else {
                        assert(all@[a] == all_old[a]);
                        assert(all_old.contains(all@[a]));
                    }
                }
                assert forall|e: AttestationData|
                    all@.contains(e) <==> (has_root(instance.aggregated_attestations@, e) || (
                    exists|q: int| 0 <= q < i + 1 && rb@[q] == e)) by {
                    if all@.contains(e) {
                        let w = choose|w: int| 0 <= w < all@.len() && all@[w] == e;
                        if w < all@.len() - 1 {
                            assert(all_old[w] == e);
                            assert(all_old.contains(e));
                        } else {
                            assert(e == d);
                            assert(rb@[i as int] == e);
                        }
                    }
                    if has_root(instance.aggregated_attestations@, e) {
                        assert(all_old.contains(e));
                        let w = choose|w: int| 0 <= w < all_old.len() && all_old[w] == e;
                        assert(all@[w] == e);
                    }
                    if (exists|q: int| 0 <= q < i + 1 && rb@[q] == e) {
                        let q = choose|q: int| 0 <= q < i + 1 && rb@[q] == e;
                        if q < i {
                            assert(all_old.contains(e));
                            let w = choose|w: int| 0 <= w < all_old.len() && all_old[w] == e;
                            assert(all@[w] == e);
                        } else {
                            assert(all@[all@.len() - 1] == d);
                        }
                    }
                }
            }
        } else {
            proof {
                assert forall|e: AttestationData|
                    all@.contains(e) <==> (has_root(instance.aggregated_attestations@, e) || (
                    exists|q: int| 0 <= q < i + 1 && rb@[q] == e)) by {
                    if (exists|q: int| 0 <= q < i + 1 && rb@[q] == e) {
                        let q = choose|q: int| 0 <= q < i + 1 && rb@[q] == e;
                        if q == i {
                            assert(e == d);
                            assert(all@.contains(d));
                        }
                    }
                }
            }
        }
    }
    proof {
        let agg_set = root_set(instance.aggregated_attestations@);
        let unagg_set = root_set(instance.unaggregated_attestations@);
        assert(all@.to_set() =~= agg_set.union(unagg_set)) by {
            assert forall|e: AttestationData|
                all@.contains(e) <==> agg_set.union(unagg_set).contains(e) by {
                if all@.contains(e) {
                    if !has_root(instance.aggregated_attestations@, e) {
                        let q = choose|q: int| 0 <= q < n && rb@[q] == e;
                        assert(rb@.contains(e));
                    }
                }
                if agg_set.union(unagg_set).contains(e) {
                    if !has_root(instance.aggregated_attestations@, e) {
                        assert(rb@.contains(e));
                        let q = choose|q: int| 0 <= q < rb@.len() && rb@[q] == e;
                        assert(0 <= q < n && rb@[q] == e);
                    }
                }
            }
        }
        all@.unique_seq_to_set();
    }
    all.len()
}

} // verus!
