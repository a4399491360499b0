//! The compatibility predicate on attestations and the enumeration of all
//! maximal cliques of the induced compatibility graph: a clique is a group of
//! same-target attestations whose voter sets are pairwise disjoint, so its
//! members can be merged into one aggregate.

use vstd::prelude::*;

use crate::instance::Attestation;
use crate::instance::EpochAttesterID;

verus! {

broadcast use vstd::set::group_set_axioms;

/// No voter key occurs in both lists.
pub open spec fn voters_disjoint(x: Seq<EpochAttesterID>, y: Seq<EpochAttesterID>) -> bool {
    forall|i: int, j: int| 0 <= i < x.len() && 0 <= j < y.len() ==> x[i] != y[j]
}

/// Two distinct attestations of the list are joined by an edge when their
/// voter sets are disjoint; the graph has no self-loops.
pub open spec fn edge(atts: Seq<Attestation>, u: usize, v: usize) -> bool {
    &&& u != v
    &&& u < atts.len()
    &&& v < atts.len()
    &&& voters_disjoint(atts[u as int].attesting_indices@, atts[v as int].attesting_indices@)
}

pub proof fn lemma_edge_sym(atts: Seq<Attestation>, u: usize, v: usize)
    ensures
        edge(atts, u, v) == edge(atts, v, u),
{
    if edge(atts, u, v) {
        let x = atts[v as int].attesting_indices@;
        let y = atts[u as int].attesting_indices@;
        assert(voters_disjoint(x, y)) by {
            assert forall|i: int, j: int| 0 <= i < x.len() && 0 <= j < y.len() implies x[i]
                != y[j] by {
                assert(y[j] != x[i]);
            }
        }
    }
    if edge(atts, v, u) {
        let x = atts[u as int].attesting_indices@;
        let y = atts[v as int].attesting_indices@;
        assert(voters_disjoint(x, y)) by {
            assert forall|i: int, j: int| 0 <= i < x.len() && 0 <= j < y.len() implies x[i]
                != y[j] by {
                assert(y[j] != x[i]);
            }
        }
    }
}

/// Vertex `v` could extend the clique `c`: it is joined to every member.
pub open spec fn compatible_with_all(atts: Seq<Attestation>, c: Set<usize>, v: usize) -> bool {
    forall|u: usize| c.contains(u) ==> edge(atts, v, u)
}

/// `c` is a set of attestation indices that are pairwise disjoint in voters.
pub open spec fn is_clique(atts: Seq<Attestation>, c: Set<usize>) -> bool {
    &&& forall|u: usize| c.contains(u) ==> u < atts.len()
    &&& forall|u: usize, v: usize| c.contains(u) && c.contains(v) && u != v ==> edge(atts, u, v)
}

/// A clique no attestation outside it is compatible with: nothing more can be
/// merged in.
pub open spec fn is_maximal_clique(atts: Seq<Attestation>, c: Set<usize>) -> bool {
    &&& is_clique(atts, c)
    &&& forall|v: usize| v < atts.len() && compatible_with_all(atts, c, v) ==> c.contains(v)
}

/// A well-formed index vector: in-bounds indices, none repeated.
pub open spec fn wf_indices(atts: Seq<Attestation>, s: Seq<usize>) -> bool {
    &&& s.no_duplicates()
    &&& forall|i: int| 0 <= i < s.len() ==> s[i] < atts.len()
}

/// True iff the voter sets of the two attestations are disjoint, so that the
/// two can be merged into a single aggregate.
pub fn is_compatible(x: &Attestation, y: &Attestation) -> (r: bool)
    ensures
        r == voters_disjoint(x.attesting_indices@, y.attesting_indices@),
{
    let n = x.attesting_indices.len();
    for i in 0..n
        invariant
            n == x.attesting_indices.len(),
            forall|a: int, b: int|
                0 <= a < i && 0 <= b < y.attesting_indices@.len() ==> x.attesting_indices@[a]
                    != y.attesting_indices@[b],
    {
        let m = y.attesting_indices.len();
        for j in 0..m
            invariant
                m == y.attesting_indices.len(),
                n == x.attesting_indices.len(),
                i < n,
                forall|b: int|
                    0 <= b < j ==> x.attesting_indices@[i as int] != y.attesting_indices@[b],
        {
            let a = &x.attesting_indices[i];
            let b = &y.attesting_indices[j];
            if a.epoch == b.epoch && a.attester == b.attester {
                proof {
                    assert(x.attesting_indices@[i as int] == y.attesting_indices@[j as int]);
                }
                return false;
            }
        }
    }
    true
}

/// The members of `s[from..]` joined by an edge to `v`, in order.
fn filter_neighbors(atts: &Vec<Attestation>, s: &Vec<usize>, from: usize, v: usize) -> (r: Vec<
    usize,
>)
    requires
        from <= s@.len(),
        wf_indices(atts@, s@),
        v < atts@.len(),
    ensures
        wf_indices(atts@, r@),
        forall|u: usize|
            r@.contains(u) <==> (s@.subrange(from as int, s@.len() as int).contains(u) && edge(
                atts@,
                u,
                v,
            )),
{
    let mut r: Vec<usize> = Vec::new();
    let n = s.len();
    for i in from..n
        invariant
            from <= i <= n,
            n == s@.len(),
            wf_indices(atts@, s@),
            v < atts@.len(),
            wf_indices(atts@, r@),
            forall|u: usize|
                r@.contains(u) <==> (s@.subrange(from as int, i as int).contains(u) && edge(
                    atts@,
                    u,
                    v,
                )),
    {
        let u = s[i];
        let ghost pre = s@.subrange(from as int, i as int);
        let ghost cur = s@.subrange(from as int, i + 1 as int);
        proof {
            assert(cur =~= pre.push(s@[i as int]));
        }
        if u != v && is_compatible(&atts[u], &atts[v]) {
            proof {
                assert(!r@.contains(u)) by {
                    if pre.contains(u) {
                        let m = choose|m: int| 0 <= m < pre.len() && pre[m] == u;
                        assert(s@[from + m] == u && s@[i as int] == u);
                    }
                }
            }
            let ghost r_old = r@;
            r.push(u);
            proof {
                assert(r@ =~= r_old.push(u));
                assert(r@.no_duplicates()) by {
                    assert forall|a: int, b: int|
                        0 <= a < r@.len() && 0 <= b < r@.len() && a != b implies r@[a] != r@[b] by {
                        if a < r@.len() - 1 && b < r@.len() - 1 {
                            assert(r@[a] == r_old[a] && r@[b] == r_old[b]);
                        } else if a == r@.len() - 1 {
                            assert(r@[a] == u && r@[b] == r_old[b]);
                            assert(!r_old.contains(u));
                        } else {
                            assert(r@[b] == u && r@[a] == r_old[a]);
                            assert(!r_old.contains(u));
                        }
                    }
                }
                assert forall|q: usize| r@.contains(q) implies (cur.contains(q) && edge(
                    atts@,
                    q,
                    v,
                )) by {
                    let m = choose|m: int| 0 <= m < r@.len() && r@[m] == q;
                    if m < r@.len() - 1 {
                        assert(r_old[m] == q);
                        assert(r_old.contains(q));
                        assert(pre.contains(q));
                        let w = choose|w: int| 0 <= w < pre.len() && pre[w] == q;
                        assert(cur[w] == q);
                    } else {
                        assert(q == u);
                        assert(cur[cur.len() - 1] == u);
                    }
                }
                assert forall|q: usize| cur.contains(q) && edge(atts@, q, v) implies r@.contains(
                    q,
                ) by {
                    let m = choose|m: int| 0 <= m < cur.len() && cur[m] == q;
                    if m < cur.len() - 1 {
                        assert(pre[m] == q);
                        assert(pre.contains(q));
                        assert(r_old.contains(q));
                        let w = choose|w: int| 0 <= w < r_old.len() && r_old[w] == q;
                        assert(r@[w] == q);
                    } else {
                        assert(r@[r@.len() - 1] == u);
                    }
                }
            }
        } else {
            proof {
                assert forall|q: usize| cur.contains(q) && edge(atts@, q, v) implies r@.contains(
                    q,
                ) by {
                    let m = choose|m: int| 0 <= m < cur.len() && cur[m] == q;
                    if m < cur.len() - 1 {
                        assert(pre[m] == q);
                    } else {
                        assert(q == u);
                        assert(!edge(atts@, u, v));
                    }
                }
                assert forall|q: usize| r@.contains(q) implies cur.contains(q) && edge(
                    atts@,
                    q,
                    v,
                ) by {
                    assert(pre.contains(q));
                    let w = choose|w: int| 0 <= w < pre.len() && pre[w] == q;
                    assert(cur[w] == q);
                }
            }
        }
    }
    proof {
        assert(s@.subrange(from as int, n as int) =~= s@.subrange(from as int, s@.len() as int));
    }
    r
}

proof fn lemma_push_to_set(s: Seq<usize>, v: usize)
    ensures
        s.push(v).to_set() =~= s.to_set().insert(v),
{
    s.lemma_push_to_set_commute(v);
}

/// All vertices of `p` and `x` extend the running clique `r`, and together
/// they are exactly the vertices that could: the classical backtracking
/// invariant of the maximal-clique search.
pub open spec fn bk_wf(atts: Seq<Attestation>, r: Seq<usize>, p: Seq<usize>, x: Seq<usize>) -> bool {
    &&& wf_indices(atts, r)
    &&& wf_indices(atts, p)
    &&& wf_indices(atts, x)
    &&& p.to_set().disjoint(x.to_set())
    &&& is_clique(atts, r.to_set())
    &&& forall|v: usize|
        p.contains(v) || x.contains(v) ==> compatible_with_all(atts, r.to_set(), v)
    &&& forall|v: usize|
        v < atts.len() && compatible_with_all(atts, r.to_set(), v) && !r.contains(v)
            ==> p.contains(v) || x.contains(v)
}

proof fn lemma_bk_wf_r_disjoint(atts: Seq<Attestation>, r: Seq<usize>, p: Seq<usize>, x: Seq<usize>)
    requires
        bk_wf(atts, r, p, x),
    ensures
        forall|v: usize| p.contains(v) || x.contains(v) ==> !r.contains(v),
{
    assert forall|v: usize| p.contains(v) || x.contains(v) implies !r.contains(v) by {
        if r.contains(v) {
            assert(r.to_set().contains(v));
            assert(compatible_with_all(atts, r.to_set(), v));
            assert(edge(atts, v, v));
        }
    }
}

/// The backtracking search: emits, once each, exactly the maximal cliques
/// that contain all of `r`, stay inside `r` plus `p`, and avoid `x`.
fn bk_rec(
    atts: &Vec<Attestation>,
    r: &Vec<usize>,
    p: &Vec<usize>,
    x: &Vec<usize>,
    out: &mut Vec<Vec<usize>>,
)
    requires
        bk_wf(atts@, r@, p@, x@),
    ensures
        final(out)@.len() >= old(out)@.len(),
        forall|i: int| 0 <= i < old(out)@.len() ==> final(out)@[i] == old(out)@[i],
        forall|i: int|
            old(out)@.len() <= i < final(out)@.len() ==> wf_indices(atts@, final(out)@[i]@)
                && is_maximal_clique(atts@, final(out)@[i]@.to_set()) && r@.to_set().subset_of(
                final(out)@[i]@.to_set(),
            ) && final(out)@[i]@.to_set().subset_of(r@.to_set() + p@.to_set()),
        forall|i: int, j: int|
            old(out)@.len() <= i < j < final(out)@.len() ==> final(out)@[i]@.to_set()
                != final(out)@[j]@.to_set(),
        forall|c: Set<usize>|
            is_maximal_clique(atts@, c) && r@.to_set().subset_of(c) && c.subset_of(
                r@.to_set() + p@.to_set(),
            ) && c.disjoint(x@.to_set()) ==> exists|i: int|
                old(out)@.len() <= i < final(out)@.len() && final(out)@[i]@.to_set() == c,
    decreases p@.len(),
{
    proof {
        lemma_bk_wf_r_disjoint(atts@, r@, p@, x@);
    }
    if p.len() == 0 && x.len() == 0 {
        let rc = r.clone();
        proof {
            assert forall|i: int| 0 <= i < r@.len() implies rc@[i] == r@[i] by {}
            assert(rc@ =~= r@);
            assert(p@.to_set() =~= Set::empty());
            assert(x@.to_set() =~= Set::empty());
        }
        let ghost out0 = out@;
        out.push(rc);
        proof {
            assert(out@[out0.len() as int]@ == r@);
            assert(is_maximal_clique(atts@, r@.to_set())) by {
                assert forall|v: usize|
                    v < atts@.len() && compatible_with_all(atts@, r@.to_set(), v) implies r@
                    .to_set().contains(v) by {
                    if !r@.contains(v) {
                        assert(p@.contains(v) || x@.contains(v));
                    }
                }
            }
            assert forall|c: Set<usize>|
                is_maximal_clique(atts@, c) && r@.to_set().subset_of(c) && c.subset_of(
                    r@.to_set() + p@.to_set(),
                ) && c.disjoint(x@.to_set()) implies exists|i: int|
                out0.len() <= i < out@.len() && out@[i]@.to_set() == c by {
                assert(c =~= r@.to_set());
                assert(out@[out0.len() as int]@.to_set() == c);
            }
        }
        return ;
    }
    let ghost out0 = out@;
    let mut xcur: Vec<usize> = x.clone();
    proof {
        assert forall|i: int| 0 <= i < x@.len() implies xcur@[i] == x@[i] by {}
        assert(xcur@ =~= x@);
        assert(xcur@.to_set() =~= x@.to_set() + p@.subrange(0, 0).to_set()) by {
            assert(p@.subrange(0, 0) =~= Seq::<usize>::empty());
        }
    }
    let n = p.len();
    for idx in 0..n
        invariant
            n == p@.len(),
            bk_wf(atts@, r@, p@, x@),
            forall|v: usize| p@.contains(v) || x@.contains(v) ==> !r@.contains(v),
            wf_indices(atts@, xcur@),
            xcur@.to_set() == x@.to_set() + p@.subrange(0, idx as int).to_set(),
            out@.len() >= out0.len(),
            forall|i: int| 0 <= i < out0.len() ==> out@[i] == out0[i],
            forall|i: int|
                out0.len() <= i < out@.len() ==> wf_indices(atts@, out@[i]@)
                    && is_maximal_clique(atts@, out@[i]@.to_set()) && r@.to_set().subset_of(
                    out@[i]@.to_set(),
                ) && out@[i]@.to_set().subset_of(r@.to_set() + p@.to_set()),
            forall|i: int| #![trigger out@[i]]
                out0.len() <= i < out@.len() ==> !out@[i]@.to_set().disjoint(
                    p@.subrange(0, idx as int).to_set(),
                ),
            forall|i: int, j: int|
                out0.len() <= i < j < out@.len() ==> out@[i]@.to_set() != out@[j]@.to_set(),
            forall|c: Set<usize>|
                is_maximal_clique(atts@, c) && r@.to_set().subset_of(c) && c.subset_of(
                    r@.to_set() + p@.to_set(),
                ) && c.disjoint(x@.to_set()) && !c.disjoint(
                    p@.subrange(0, idx as int).to_set(),
                ) ==> exists|i: int| out0.len() <= i < out@.len() && out@[i]@.to_set() == c,
    {
        let v = p[idx];
        let ghost processed = p@.subrange(0, idx as int);
        let ghost processed_next = p@.subrange(0, idx + 1 as int);
        proof {
            assert(processed_next =~= processed.push(v));
        }
        let p_next = filter_neighbors(atts, p, idx + 1, v);
        let x_next = filter_neighbors(atts, &xcur, 0, v);
        proof {
            assert(xcur@.subrange(0, xcur@.len() as int) =~= xcur@);
        }
        let mut r_next = clone_usizes(r);
        r_next.push(v);
        let ghost rset = r@.to_set();
        let ghost rnset = r_next@.to_set();
        proof {
            assert(p@[idx as int] == v);
            assert(p@.contains(v));
            assert(r_next@ == r@.push(v));
            lemma_push_to_set(r@, v);
            assert(rnset =~= rset.insert(v));
            // termination: p_next is a duplicate-free subset of p[idx+1..]
            let tail = p@.subrange(idx + 1 as int, n as int);
            assert(tail.no_duplicates()) by {
                assert forall|a: int, b: int|
                    0 <= a < tail.len() && 0 <= b < tail.len() && a != b implies tail[a]
                    != tail[b] by {
                    assert(tail[a] == p@[idx + 1 + a] && tail[b] == p@[idx + 1 + b]);
                }
            }
            assert(p_next@.to_set().subset_of(tail.to_set()));
            vstd::set_lib::lemma_len_subset(p_next@.to_set(), tail.to_set());
            p_next@.unique_seq_to_set();
            tail.unique_seq_to_set();
            assert(p_next@.len() <= tail.len());
            // the recursive call's precondition
            assert(bk_wf(atts@, r_next@, p_next@, x_next@)) by {
                assert(wf_indices(atts@, r_next@)) by {
                    assert(p@.contains(v));
                    assert(!r@.contains(v));
                    assert forall|a: int, b: int|
                        0 <= a < r_next@.len() && 0 <= b < r_next@.len() && a != b implies r_next@[a]
                        != r_next@[b] by {
                        if a < r@.len() && b < r@.len() {
                        } else if a == r@.len() {
                            assert(r_next@[b] == r@[b]);
                        } else {
                            assert(r_next@[a] == r@[a]);
                        }
                    }
                }
                assert(p_next@.to_set().disjoint(x_next@.to_set())) by {
                    assert forall|u: usize|
                        !(p_next@.to_set().contains(u) && x_next@.to_set().contains(u)) by {
                        if p_next@.contains(u) && x_next@.contains(u) {
                            let tl = p@.subrange(idx + 1 as int, n as int);
                            assert(tl.contains(u));
                            let a = choose|a: int| 0 <= a < tl.len() && tl[a] == u;
                            assert(p@[idx + 1 + a] == u);
                            assert(xcur@.contains(u));
                            assert(xcur@.to_set().contains(u));
                            assert(x@.to_set().contains(u) || processed.to_set().contains(u));
                            if x@.contains(u) {
                                assert(p@.contains(u));
                                assert(x@.to_set().contains(u) && p@.to_set().contains(u));
                            } else {
                                assert(processed.contains(u));
                                let b = choose|b: int| 0 <= b < processed.len() && processed[b] == u;
                                assert(p@[b] == u);
                            }
                        }
                    }
                }
                assert(is_clique(atts@, rnset)) by {
                    assert(compatible_with_all(atts@, rset, v));
                    assert forall|a: usize, b: usize|
                        rnset.contains(a) && rnset.contains(b) && a != b implies edge(
                        atts@,
                        a,
                        b,
                    ) by {
                        if a == v {
                            assert(edge(atts@, v, b));
                            lemma_edge_sym(atts@, v, b);
                        } else if b == v {
                            assert(edge(atts@, a, v)) by {
                                assert(edge(atts@, v, a));
                                lemma_edge_sym(atts@, v, a);
                            }
                        }
                    }
                }
                assert forall|u: usize|
                    p_next@.contains(u) || x_next@.contains(u) implies compatible_with_all(
                    atts@,
                    rnset,
                    u,
                ) by {
                    assert(edge(atts@, u, v));
                    if p_next@.contains(u) {
                        let tl = p@.subrange(idx + 1 as int, n as int);
                        assert(tl.contains(u));
                        let a = choose|a: int| 0 <= a < tl.len() && tl[a] == u;
                        assert(p@[idx + 1 + a] == u);
                        assert(p@.contains(u));
                    } else {
                        assert(xcur@.contains(u));
                        assert(xcur@.to_set().contains(u));
                        assert(x@.to_set().contains(u) || processed.to_set().contains(u));
                        if !x@.contains(u) {
                            assert(processed.contains(u));
                            let b = choose|b: int| 0 <= b < processed.len() && processed[b] == u;
                            assert(p@[b] == u);
                            assert(p@.contains(u));
                        }
                    }
                    assert(compatible_with_all(atts@, rset, u));
                    assert forall|w: usize| rnset.contains(w) implies edge(atts@, u, w) by {
                        if w == v {
                        } else {
                            assert(rset.contains(w));
                        }
                    }
                }
                assert forall|w: usize|
                    w < atts@.len() && compatible_with_all(atts@, rnset, w) && !r_next@.contains(
                        w,
                    ) implies p_next@.contains(w) || x_next@.contains(w) by {
                    assert(compatible_with_all(atts@, rset, w)) by {
                        assert forall|u: usize| rset.contains(u) implies edge(atts@, w, u) by {
                            assert(rnset.contains(u));
                        }
                    }
                    assert(!r@.contains(w)) by {
                        if r@.contains(w) {
                            assert(r_next@[choose|m: int|
                                0 <= m < r@.len() && r@[m] == w] == w);
                        }
                    }
                    assert(p@.contains(w) || x@.contains(w));
                    assert(edge(atts@, w, v)) by {
                        assert(rnset.contains(v));
                    }
                    assert(w != v);
                    if x@.contains(w) {
                        assert(xcur@.to_set().contains(w)) by {
                            assert(x@.to_set().contains(w));
                        }
                        assert(x_next@.contains(w));
                    } else {
                        let m = choose|m: int| 0 <= m < p@.len() && p@[m] == w;
                        if m < idx {
                            assert(processed[m] == w);
                            assert(xcur@.to_set().contains(w)) by {
                                assert(processed.to_set().contains(w));
                            }
                            assert(x_next@.contains(w));
                        } else if m == idx {
                            assert(w == v);
                        } else {
                            let tl = p@.subrange(idx + 1 as int, n as int);
                            assert(tl[m - idx - 1] == w);
                            assert(tl.contains(w));
                            assert(p_next@.contains(w));
                        }
                    }
                }
            }
        }
        let ghost out_mid = out@;
        bk_rec(atts, &r_next, &p_next, &x_next, out);
        let ghost out_after = out@;
        let ghost xcur_old = xcur@;
        xcur.push(v);
        proof {
            assert(xcur@ == xcur_old.push(v));
            lemma_push_to_set(xcur_old, v);
            lemma_push_to_set(processed, v);
            assert(!xcur_old.contains(v)) by {
                if x@.contains(v) {
                    assert(x@.to_set().contains(v) && p@.to_set().contains(v));
                } else if processed.contains(v) {
                    let b = choose|b: int| 0 <= b < processed.len() && processed[b] == v;
                    assert(p@[b] == v && p@[idx as int] == v);
                }
                if xcur_old.contains(v) {
                    assert(xcur_old.to_set().contains(v));
                    assert(x@.to_set().contains(v) || processed.to_set().contains(v));
                }
            }
            assert(wf_indices(atts@, xcur@)) by {
                assert forall|a: int, b: int|
                    0 <= a < xcur@.len() && 0 <= b < xcur@.len() && a != b implies xcur@[a]
                    != xcur@[b] by {
                    if a == xcur@.len() - 1 {
                        assert(xcur_old.contains(xcur@[b])) by {
                            assert(xcur_old[b] == xcur@[b]);
                        }
                    } else if b == xcur@.len() - 1 {
                        assert(xcur_old.contains(xcur@[a])) by {
                            assert(xcur_old[a] == xcur@[a]);
                        }
                    }
                }
            }
            assert(xcur@.to_set() =~= x@.to_set() + processed_next.to_set());
            // entries written before this iteration are untouched
            assert(forall|i: int| 0 <= i < out_mid.len() ==> out_after[i] == out_mid[i]);
            // soundness and the processed-vertex witness for the new entries
            assert forall|i: int| out0.len() <= i < out_after.len() implies wf_indices(
                atts@,
                out_after[i]@,
            ) && is_maximal_clique(atts@, out_after[i]@.to_set()) && r@.to_set().subset_of(
                out_after[i]@.to_set(),
            ) && out_after[i]@.to_set().subset_of(r@.to_set() + p@.to_set())
                && !out_after[i]@.to_set().disjoint(processed_next.to_set()) by {
                if i < out_mid.len() {
                    assert(!out_mid[i]@.to_set().disjoint(processed.to_set()));
                    assert(exists|w: usize|
                        out_mid[i]@.to_set().contains(w) && processed.to_set().contains(w));
                    let w = choose|w: usize|
                        out_mid[i]@.to_set().contains(w) && processed.to_set().contains(w);
                    assert(processed_next.to_set().contains(w));
                    assert(out_after[i]@.to_set().contains(w));
                } else {
                    assert(rnset.subset_of(out_after[i]@.to_set()));
                    assert(out_after[i]@.to_set().subset_of(rnset + p_next@.to_set()));
                    assert(out_after[i]@.to_set().subset_of(r@.to_set() + p@.to_set())) by {
                        assert forall|u: usize|
                            out_after[i]@.to_set().contains(u) implies (r@.to_set()
                            + p@.to_set()).contains(u) by {
                            if u == v {
                                assert(p@.to_set().contains(u));
                            } else if p_next@.to_set().contains(u) {
                                let tl = p@.subrange(idx + 1 as int, n as int);
                                assert(tl.contains(u));
                                let a = choose|a: int| 0 <= a < tl.len() && tl[a] == u;
                                assert(p@[idx + 1 + a] == u);
                                assert(p@.to_set().contains(u));
                            }
                        }
                    }
                    assert(out_after[i]@.to_set().contains(v) && processed_next.contains(v)) by {
                        assert(rnset.contains(v));
                        assert(processed_next[idx as int] == v);
                    }
                    assert(processed_next.to_set().contains(v));
                    assert(!out_after[i]@.to_set().disjoint(processed_next.to_set()));
                }
            }
            // new entries of this iteration differ from all earlier ones
            assert forall|i: int, j: int|
                out0.len() <= i < j < out_after.len() implies out_after[i]@.to_set()
                != out_after[j]@.to_set() by {
                if j < out_mid.len() {
                } else if i >= out_mid.len() {
                } else {
                    assert(!out_mid[i]@.to_set().disjoint(processed.to_set()));
                    assert(exists|w: usize|
                        out_mid[i]@.to_set().contains(w) && processed.to_set().contains(w));
                    let w = choose|w: usize|
                        out_mid[i]@.to_set().contains(w) && processed.to_set().contains(w);
                    assert(processed.contains(w));
                    assert(out_after[i]@.to_set().contains(w));
                    assert(!out_after[j]@.to_set().contains(w)) by {
                        let b = choose|b: int| 0 <= b < processed.len() && processed[b] == w;
                        assert(p@[b] == w);
                        assert(p@.contains(w));
                        assert(!r@.contains(w));
                        assert(w != v) by {
                            assert(p@[idx as int] == v);
                        }
                        if out_after[j]@.to_set().contains(w) {
                            assert((rnset + p_next@.to_set()).contains(w));
                            if p_next@.to_set().contains(w) {
                                let tl = p@.subrange(idx + 1 as int, n as int);
                                assert(tl.contains(w));
                                let a = choose|a: int| 0 <= a < tl.len() && tl[a] == w;
                                assert(p@[idx + 1 + a] == w && p@[b] == w);
                            } else {
                                assert(rset.contains(w));
                            }
                        }
                    }
                }
            }
            // every maximal clique that touches the processed prefix is out
            assert forall|c: Set<usize>|
                is_maximal_clique(atts@, c) && r@.to_set().subset_of(c) && c.subset_of(
                    r@.to_set() + p@.to_set(),
                ) && c.disjoint(x@.to_set()) && !c.disjoint(
                    processed_next.to_set(),
                ) implies exists|i: int|
                out0.len() <= i < out_after.len() && out_after[i]@.to_set() == c by {
                if !c.disjoint(processed.to_set()) {
                    let i = choose|i: int|
                        out0.len() <= i < out_mid.len() && out_mid[i]@.to_set() == c;
                    assert(out_after[i]@.to_set() == c);
                } else {
                    assert(c.contains(v)) by {
                        let w = choose|w: usize|
                            c.contains(w) && processed_next.to_set().contains(w);
                        let m = choose|m: int|
                            0 <= m < processed_next.len() && processed_next[m] == w;
                        if m < idx {
                            assert(processed[m] == w);
                            assert(c.contains(w) && processed.to_set().contains(w));
                        } else {
                            assert(w == v);
                        }
                    }
                    assert(rnset.subset_of(c));
                    assert(c.subset_of(rnset + p_next@.to_set())) by {
                        assert forall|w: usize|
                            c.contains(w) implies (rnset + p_next@.to_set()).contains(w) by {
                            if !rnset.contains(w) {
                                assert(!r@.to_set().contains(w) && w != v);
                                assert(p@.to_set().contains(w));
                                let m = choose|m: int| 0 <= m < p@.len() && p@[m] == w;
                                assert(edge(atts@, w, v)) by {
                                    assert(c.contains(w) && c.contains(v));
                                }
                                if m < idx {
                                    assert(processed[m] == w);
                                    assert(c.contains(w) && processed.to_set().contains(w));
                                } else if m == idx {
                                    assert(w == v);
                                } else {
                                    let tl = p@.subrange(idx + 1 as int, n as int);
                                    assert(tl[m - idx - 1] == w);
                                    assert(tl.contains(w));
                                    assert(p_next@.contains(w));
                                    assert(p_next@.to_set().contains(w));
                                }
                            }
                        }
                    }
                    assert(c.disjoint(x_next@.to_set())) by {
                        assert forall|w: usize| c.contains(w) implies !x_next@.to_set().contains(
                            w,
                        ) by {
                            if x_next@.contains(w) {
                                assert(xcur_old.contains(w)) by {
                                    assert(xcur_old.subrange(0, xcur_old.len() as int)
                                        =~= xcur_old);
                                }
                                assert((x@.to_set() + processed.to_set()).contains(w));
                                if x@.to_set().contains(w) {
                                    assert(c.disjoint(x@.to_set()));
                                } else {
                                    assert(c.disjoint(processed.to_set()));
                                }
                            }
                        }
                    }
                    let i = choose|i: int|
                        out_mid.len() <= i < out_after.len() && out_after[i]@.to_set() == c;
                    assert(out0.len() <= i);
                }
            }
        }
    }
    proof {
        assert(p@.subrange(0, n as int) =~= p@);
        // after the last candidate is processed nothing admissible is missing
        assert forall|c: Set<usize>|
            is_maximal_clique(atts@, c) && r@.to_set().subset_of(c) && c.subset_of(
                r@.to_set() + p@.to_set(),
            ) && c.disjoint(x@.to_set()) implies exists|i: int|
            out0.len() <= i < out@.len() && out@[i]@.to_set() == c by {
            if c.disjoint(p@.to_set()) {
                assert(c =~= r@.to_set()) by {
                    assert forall|w: usize| c.contains(w) implies r@.to_set().contains(w) by {
                        assert((r@.to_set() + p@.to_set()).contains(w));
                    }
                }
                if p@.len() > 0 {
                    let w = p@[0];
                    assert(p@.contains(w));
                    assert(compatible_with_all(atts@, r@.to_set(), w));
                    assert(c.contains(w));
                    assert(r@.contains(w));
                    assert(false);
                } else {
                    let w = x@[0];
                    assert(x@.contains(w));
                    assert(compatible_with_all(atts@, r@.to_set(), w));
                    assert(c.contains(w));
                    assert(x@.to_set().contains(w));
                    assert(false);
                }
            } else {
                assert(!c.disjoint(p@.subrange(0, n as int).to_set()));
            }
        }
    }
}

/// Enumerate, by backtracking search, every maximal clique of the
/// compatibility graph over `attestations`: each returned vector lists the
/// attestation indices of one clique. Every returned clique is pairwise
/// compatible and maximal; every maximal clique appears exactly once; an
/// empty input yields an empty list.
pub fn bron_kerbosh(attestations: &Vec<Attestation>) -> (cliques: Vec<Vec<usize>>)
    ensures
        forall|i: int|
            0 <= i < cliques@.len() ==> wf_indices(attestations@, cliques@[i]@)
                && is_maximal_clique(attestations@, cliques@[i]@.to_set()),
        forall|i: int, j: int|
            0 <= i < j < cliques@.len() ==> cliques@[i]@.to_set() != cliques@[j]@.to_set(),
        attestations@.len() > 0 ==> forall|c: Set<usize>|
            is_maximal_clique(attestations@, c) ==> exists|i: int|
                0 <= i < cliques@.len() && cliques@[i]@.to_set() == c,
        attestations@.len() == 0 ==> cliques@.len() == 0,
{
    let n = attestations.len();
    if n == 0 {
        let empty: Vec<Vec<usize>> = Vec::new();
        return empty;
    }
    let r: Vec<usize> = Vec::new();
    let x: Vec<usize> = Vec::new();
    let mut p: Vec<usize> = Vec::new();
    for i in 0..n
        invariant
            p@.len() == i,
            forall|m: int| 0 <= m < i ==> p@[m] == m,
    {
        p.push(i);
    }
    let mut out: Vec<Vec<usize>> = Vec::new();
    proof {
        assert(r@.to_set() =~= Set::<usize>::empty());
        assert(x@.to_set() =~= Set::<usize>::empty());
        assert(bk_wf(attestations@, r@, p@, x@)) by {
            assert(p@.no_duplicates());
            assert forall|v: usize|
                v < attestations@.len() && compatible_with_all(
                    attestations@,
                    r@.to_set(),
                    v,
                ) && !r@.contains(v) implies p@.contains(v) || x@.contains(v) by {
                assert(p@[v as int] == v);
            }
        }
    }
    bk_rec(attestations, &r, &p, &x, &mut out);
    proof {
        assert forall|c: Set<usize>| is_maximal_clique(attestations@, c) implies exists|i: int|
            0 <= i < out@.len() && out@[i]@.to_set() == c by {
            assert(r@.to_set().subset_of(c));
            assert(c.subset_of(r@.to_set() + p@.to_set())) by {
                assert forall|u: usize| c.contains(u) implies (r@.to_set() + p@.to_set()).contains(
                    u,
                ) by {
                    assert(u < attestations@.len());
                    assert(p@[u as int] == u);
                    assert(p@.contains(u));
                }
            }
            assert(c.disjoint(x@.to_set()));
        }
    }
    out
}

/// The set of all attestation indices below `n`.
pub open spec fn indices_below(n: usize) -> Set<usize> {
    Set::new(|u: usize| u < n)
}

proof fn lemma_indices_below_len(n: usize)
    ensures
        indices_below(n).finite(),
        indices_below(n).len() == n,
    decreases n,
{
    if n == 0 {
        assert(indices_below(0) =~= Set::<usize>::empty());
    } else {
        let m = (n - 1) as usize;
        lemma_indices_below_len(m);
        assert(indices_below(n) =~= indices_below(m).insert(m));
        assert(!indices_below(m).contains(m));
    }
}

/// A set of attestation indices holding exactly one index.
pub open spec fn is_singleton_clique(c: Set<usize>) -> bool {
    exists|v: usize| c == Set::<usize>::empty().insert(v)
}

/// Some listed clique is exactly the singleton of `v`.
pub open spec fn singleton_clique_listed(cliques: Seq<Set<usize>>, v: usize) -> bool {
    exists|i: int| 0 <= i < cliques.len() && cliques[i] == Set::<usize>::empty().insert(v)
}

/// In a compatibility graph with no edges the maximal cliques are exactly the
/// singletons, so an enumeration with the contract of `bron_kerbosh` lists
/// precisely one clique per attestation: `n` singleton cliques in all.
pub proof fn lemma_no_edges_gives_singletons(atts: Seq<Attestation>, cliques: Seq<Set<usize>>)
    requires
        atts.len() <= usize::MAX,
        forall|u: usize, v: usize| !edge(atts, u, v),
        forall|i: int| 0 <= i < cliques.len() ==> is_maximal_clique(atts, #[trigger] cliques[i]),
        forall|i: int, j: int| 0 <= i < j < cliques.len() ==> cliques[i] != cliques[j],
        atts.len() > 0 ==> forall|c: Set<usize>|
            is_maximal_clique(atts, c) ==> exists|i: int| 0 <= i < cliques.len() && cliques[i] == c,
        atts.len() == 0 ==> cliques.len() == 0,
    ensures
        cliques.len() == atts.len(),
        forall|i: int| 0 <= i < cliques.len() ==> is_singleton_clique(#[trigger] cliques[i]),
        forall|v: usize| v < atts.len() ==> #[trigger] singleton_clique_listed(cliques, v),
{
    if atts.len() == 0 {
        assert(cliques.len() == 0);
    } else {
    // every singleton is a maximal clique
    assert forall|v: usize| v < atts.len() implies is_maximal_clique(
        atts,
        Set::<usize>::empty().insert(v),
    ) by {
        let s = Set::<usize>::empty().insert(v);
        assert forall|w: usize|
            w < atts.len() && compatible_with_all(atts, s, w) implies s.contains(w) by {
            if w != v {
                assert(s.contains(v));
                assert(edge(atts, w, v));
            }
        }
    }
    // every listed clique is a singleton
    assert forall|i: int| 0 <= i < cliques.len() implies exists|v: usize|
        #[trigger] cliques[i] == Set::<usize>::empty().insert(v) by {
        let c = cliques[i];
        assert(exists|u: usize| c.contains(u)) by {
            if forall|u: usize| !c.contains(u) {
                assert(compatible_with_all(atts, c, 0));
                assert(c.contains(0usize));
            }
        }
        let u = choose|u: usize| c.contains(u);
        assert(c =~= Set::<usize>::empty().insert(u)) by {
            assert forall|w: usize| c.contains(w) implies w == u by {
                if w != u {
                    assert(edge(atts, w, u));
                }
            }
        }
        assert(c == Set::<usize>::empty().insert(u));
        assert(is_singleton_clique(cliques[i]));
    }
    // one listed clique per attestation index
    let reps = Seq::<usize>::new(
        cliques.len(),
        |i: int| choose|v: usize| cliques[i] == Set::<usize>::empty().insert(v),
    );
    assert forall|i: int| 0 <= i < reps.len() implies cliques[i] == Set::<usize>::empty().insert(
        reps[i],
    ) && reps[i] < atts.len() by {
        let v = choose|v: usize| cliques[i] == Set::<usize>::empty().insert(v);
        assert(cliques[i] == Set::<usize>::empty().insert(v));
        assert(cliques[i].contains(v));
    }
    assert(reps.no_duplicates()) by {
        assert forall|i: int, j: int|
            0 <= i < reps.len() && 0 <= j < reps.len() && i != j implies reps[i] != reps[j] by {
            if reps[i] == reps[j] {
                assert(cliques[i] == cliques[j]);
            }
        }
    }
    assert(reps.to_set() =~= indices_below(atts.len() as usize)) by {
        assert forall|v: usize| indices_below(atts.len() as usize).contains(v) implies reps
            .to_set().contains(v) by {
            let c = Set::<usize>::empty().insert(v);
            assert(is_maximal_clique(atts, c));
            let i = choose|i: int| 0 <= i < cliques.len() && cliques[i] == c;
            assert(cliques[i] == Set::<usize>::empty().insert(reps[i]));
            assert(cliques[i].contains(reps[i]));
            assert(c.contains(reps[i]));
            assert(reps[i] == v);
            assert(reps.contains(v));
        }
        assert forall|v: usize| reps.to_set().contains(v) implies indices_below(
            atts.len() as usize,
        ).contains(v) by {
            assert(reps.contains(v));
            let m = choose|m: int| 0 <= m < reps.len() && reps[m] == v;
            assert(reps[m] < atts.len());
        }
    }
    reps.unique_seq_to_set();
    lemma_indices_below_len(atts.len() as usize);
    assert forall|v: usize| v < atts.len() implies #[trigger] singleton_clique_listed(
        cliques,
        v,
    ) by {
        assert(indices_below(atts.len() as usize).contains(v));
        assert(reps.to_set().contains(v));
        assert(reps.contains(v));
        let m = choose|m: int| 0 <= m < reps.len() && reps[m] == v;
        assert(cliques[m] == Set::<usize>::empty().insert(v));
    }
    assert forall|i: int| 0 <= i < cliques.len() implies is_singleton_clique(
        #[trigger] cliques[i],
    ) by {
        assert(cliques[i] == Set::<usize>::empty().insert(reps[i]));
    }
    }
}

/// The concatenation of the voter lists of the attestations picked out by
/// `cl`, in clique order.
pub open spec fn flat_voters(atts: Seq<Attestation>, cl: Seq<usize>) -> Seq<EpochAttesterID>
    decreases cl.len(),
{
    if cl.len() == 0 {
        Seq::empty()
    } else {
        flat_voters(atts, cl.drop_last()) + atts[cl.last() as int].attesting_indices@
    }
}

/// Merge the members of one clique into a single voter list.
pub fn clique_union(atts: &Vec<Attestation>, cl: &Vec<usize>) -> (r: Vec<EpochAttesterID>)
    requires
        forall|i: int| 0 <= i < cl@.len() ==> cl@[i] < atts@.len(),
    ensures
        r@ == flat_voters(atts@, cl@),
{
    let mut r: Vec<EpochAttesterID> = Vec::new();
    let n = cl.len();
    for i in 0..n
        invariant
            n == cl@.len(),
            forall|m: int| 0 <= m < cl@.len() ==> cl@[m] < atts@.len(),
            r@ == flat_voters(atts@, cl@.subrange(0, i as int)),
    {
        let idx = cl[i];
        let voters = &atts[idx].attesting_indices;
        let m = voters.len();
        let ghost r_pre = r@;
        for j in 0..m
            invariant
                m == voters@.len(),
                r@ =~= r_pre + voters@.subrange(0, j as int),
        {
            r.push(voters[j]);
            proof {
                assert(voters@.subrange(0, j + 1 as int) =~= voters@.subrange(0, j as int).push(
                    voters@[j as int]));
            }
        }
        proof {
            let pre = cl@.subrange(0, i as int);
            let cur = cl@.subrange(0, i + 1 as int);
            assert(cur.drop_last() =~= pre);
            assert(cur.last() == cl@[i as int]);
            assert(voters@.subrange(0, m as int) =~= voters@);
            assert(r@ =~= flat_voters(atts@, pre) + atts@[cl@[i as int] as int].attesting_indices@);
        }
    }
    proof {
        assert(cl@.subrange(0, n as int) =~= cl@);
    }
    r
}

/// Copy a vector of indices.
fn clone_usizes(s: &Vec<usize>) -> (r: Vec<usize>)
    ensures
        r@ == s@,
{
    let rc = s.clone();
    proof {
        assert forall|i: int| 0 <= i < s@.len() implies rc@[i] == s@[i] by {}
        assert(rc@ =~= s@);
    }
    rc
}

} // verus!
