//! Per-target candidate aggregates: attestations are grouped by vote target,
//! each group's maximal cliques are merged into candidate voter sets, voters
//! seen only in singleton unaggregated attestations are absorbed, and targets
//! with no aggregated attestations fall back to one candidate set each.

use vstd::prelude::*;

use crate::cliques::bron_kerbosh;
use crate::cliques::clique_union;
use crate::cliques::flat_voters;
use crate::cliques::is_maximal_clique;
use crate::cliques::wf_indices;
use crate::instance::Attestation;
use crate::instance::AttestationData;
use crate::instance::EpochAttesterID;

verus! {

broadcast use vstd::set::group_set_axioms, vstd::seq_lib::group_seq_lib_default;

/// What matters about an attestation: its voter list and its target.
pub open spec fn att_model(a: Attestation) -> (Seq<EpochAttesterID>, AttestationData) {
    (a.attesting_indices@, a.data_root)
}

pub open spec fn models(atts: Seq<Attestation>) -> Seq<(Seq<EpochAttesterID>, AttestationData)> {
    atts.map_values(|a: Attestation| att_model(a))
}

/// The attestations of `atts` voting for target `d`, in order, as models.
pub open spec fn group_model(atts: Seq<Attestation>, d: AttestationData) -> Seq<
    (Seq<EpochAttesterID>, AttestationData),
>
    decreases atts.len(),
{
    if atts.len() == 0 {
        Seq::empty()
    } else {
        let rest = group_model(atts.drop_last(), d);
        if atts.last().data_root == d {
            rest.push(att_model(atts.last()))
        } else {
            rest
        }
    }
}

pub open spec fn has_root(atts: Seq<Attestation>, d: AttestationData) -> bool {
    exists|j: int| 0 <= j < atts.len() && atts[j].data_root == d
}

/// The designated (first) voter of each attestation of `atts` voting for `d`:
/// the extras absorbed into every candidate set of that target.
pub open spec fn extras_model(atts: Seq<Attestation>, d: AttestationData) -> Seq<EpochAttesterID> {
    group_model(atts, d).map_values(|p: (Seq<EpochAttesterID>, AttestationData)| p.0[0])
}

/// `extras` folded into `c` in order: an extra already present is left alone,
/// any other is appended.
pub open spec fn absorb_spec(c: Seq<EpochAttesterID>, extras: Seq<EpochAttesterID>) -> Seq<
    EpochAttesterID,
>
    decreases extras.len(),
{
    if extras.len() == 0 {
        c
    } else {
        let prev = absorb_spec(c, extras.drop_last());
        if prev.contains(extras.last()) {
            prev
        } else {
            prev.push(extras.last())
        }
    }
}

/// `cls` lists the maximal cliques of `g` exactly: every entry is a maximal
/// clique, no two entries are the same clique, and every maximal clique is an
/// entry.
pub open spec fn lists_maximal_cliques(g: Seq<Attestation>, cls: Seq<Vec<usize>>) -> bool {
    &&& forall|i: int|
        0 <= i < cls.len() ==> wf_indices(g, #[trigger] cls[i]@) && is_maximal_clique(
            g,
            cls[i]@.to_set(),
        )
    &&& forall|i: int, j: int| 0 <= i < j < cls.len() ==> cls[i]@.to_set() != cls[j]@.to_set()
    &&& forall|c: Set<usize>|
        is_maximal_clique(g, c) ==> exists|i: int| 0 <= i < cls.len() && cls[i]@.to_set() == c
}

/// The candidate sets `cs` are exactly one merged-and-absorbed voter list per
/// maximal clique of `g`, in some clique order: nothing is missing and
/// nothing extra is produced.
pub open spec fn candidates_match_cliques(
    g: Seq<Attestation>,
    extras: Seq<EpochAttesterID>,
    cs: Seq<Vec<EpochAttesterID>>,
) -> bool {
    exists|cls: Seq<Vec<usize>>|
        lists_maximal_cliques(g, cls) && cls.len() == cs.len() && (forall|i: int|
            0 <= i < cs.len() ==> #[trigger] cs[i]@ == absorb_spec(
                flat_voters(g, cls[i]@),
                extras,
            ))
}

/// Some candidate of `cs` is the merged-and-absorbed voter list of the
/// maximal clique `c` of `g`.
pub open spec fn clique_candidate_listed(
    g: Seq<Attestation>,
    extras: Seq<EpochAttesterID>,
    cs: Seq<Vec<EpochAttesterID>>,
    c: Set<usize>,
) -> bool {
    exists|i: int, cl: Seq<usize>|
        0 <= i < cs.len() && wf_indices(g, cl) && cl.to_set() == c && cs[i]@ == absorb_spec(
            flat_voters(g, cl),
            extras,
        )
}

/// The candidates of the aggregated target `d` are all listed in `cs`: for
/// the group of `d` (some attestation sequence with that group's models),
/// every maximal clique's merged-and-absorbed voter list appears.
pub open spec fn target_candidates_listed(
    agg: Seq<Attestation>,
    unagg: Seq<Attestation>,
    cs: Seq<Vec<EpochAttesterID>>,
    d: AttestationData,
) -> bool {
    exists|g: Seq<Attestation>|
        models(g) == group_model(agg, d) && (forall|c: Set<usize>|
            is_maximal_clique(g, c) ==> clique_candidate_listed(
                g,
                extras_model(unagg, d),
                cs,
                c,
            ))
}

/// The fallback candidate set of the unaggregated-only target `d` is listed
/// in `cs`.
pub open spec fn fallback_listed(
    unagg: Seq<Attestation>,
    cs: Seq<Vec<EpochAttesterID>>,
    d: AttestationData,
) -> bool {
    exists|i: int| 0 <= i < cs.len() && cs[i]@ == extras_model(unagg, d)
}

/// `n` is the number of maximal cliques of some aggregated target's group.
pub open spec fn group_count_matches(agg: Seq<Attestation>, n: usize) -> bool {
    exists|d: AttestationData, g: Seq<Attestation>, cls: Seq<Vec<usize>>|
        has_root(agg, d) && models(g) == group_model(agg, d) && lists_maximal_cliques(g, cls)
            && cls.len() == n
}

/// A listing stays listed when the candidate vector only grows at the end.
proof fn lemma_target_listed_monotone(
    agg: Seq<Attestation>,
    unagg: Seq<Attestation>,
    cs1: Seq<Vec<EpochAttesterID>>,
    cs2: Seq<Vec<EpochAttesterID>>,
    d: AttestationData,
)
    requires
        target_candidates_listed(agg, unagg, cs1, d),
        cs1.len() <= cs2.len(),
        forall|i: int| 0 <= i < cs1.len() ==> cs2[i] == cs1[i],
    ensures
        target_candidates_listed(agg, unagg, cs2, d),
{
    let g = choose|g: Seq<Attestation>|
        models(g) == group_model(agg, d) && (forall|c: Set<usize>|
            is_maximal_clique(g, c) ==> clique_candidate_listed(
                g,
                extras_model(unagg, d),
                cs1,
                c,
            ));
    assert forall|c: Set<usize>| is_maximal_clique(g, c) implies clique_candidate_listed(
        g,
        extras_model(unagg, d),
        cs2,
        c,
    ) by {
        assert(clique_candidate_listed(g, extras_model(unagg, d), cs1, c));
        let (i, cl) = choose|i: int, cl: Seq<usize>|
            0 <= i < cs1.len() && wf_indices(g, cl) && cl.to_set() == c && cs1[i]@ == absorb_spec(
                flat_voters(g, cl),
                extras_model(unagg, d),
            );
        assert(cs2[i] == cs1[i]);
        assert(cs2[i]@ == absorb_spec(flat_voters(g, cl), extras_model(unagg, d)));
    }
}

/// As above, for the fallback sets.
proof fn lemma_fallback_listed_monotone(
    unagg: Seq<Attestation>,
    cs1: Seq<Vec<EpochAttesterID>>,
    cs2: Seq<Vec<EpochAttesterID>>,
    d: AttestationData,
)
    requires
        fallback_listed(unagg, cs1, d),
        cs1.len() <= cs2.len(),
        forall|i: int| 0 <= i < cs1.len() ==> cs2[i] == cs1[i],
    ensures
        fallback_listed(unagg, cs2, d),
{
    let i = choose|i: int| 0 <= i < cs1.len() && cs1[i]@ == extras_model(unagg, d);
    assert(cs2[i] == cs1[i]);
    assert(cs2[i]@ == extras_model(unagg, d));
}

/// A target that occurs in the list has a non-empty group.
proof fn lemma_group_model_nonempty(atts: Seq<Attestation>, d: AttestationData)
    requires
        has_root(atts, d),
    ensures
        group_model(atts, d).len() > 0,
    decreases atts.len(),
{
    if atts.last().data_root != d {
        let j = choose|j: int| 0 <= j < atts.len() && atts[j].data_root == d;
        assert(j < atts.len() - 1);
        assert(atts.drop_last()[j] == atts[j]);
        assert(has_root(atts.drop_last(), d));
        lemma_group_model_nonempty(atts.drop_last(), d);
    }
}

/// `voters` is what one maximal clique of `g` yields: the concatenation of the
/// clique members' voter lists with the extras folded in.
pub open spec fn is_candidate_for(
    g: Seq<Attestation>,
    extras: Seq<EpochAttesterID>,
    voters: Seq<EpochAttesterID>,
) -> bool {
    exists|cl: Seq<usize>|
        wf_indices(g, cl) && is_maximal_clique(g, cl.to_set()) && voters == absorb_spec(
            flat_voters(g, cl),
            extras,
        )
}

/// A candidate set the builder may produce for the given attestation lists:
/// either a clique of some aggregated target group with that target's extras
/// absorbed, or the fallback set of a target seen only unaggregated.
pub open spec fn valid_candidate(
    agg: Seq<Attestation>,
    unagg: Seq<Attestation>,
    voters: Seq<EpochAttesterID>,
) -> bool {
    ||| exists|g: Seq<Attestation>, d: AttestationData|
        has_root(agg, d) && models(g) == group_model(agg, d) && is_candidate_for(
            g,
            extras_model(unagg, d),
            voters,
        )
    ||| exists|d: AttestationData|
        has_root(unagg, d) && !has_root(agg, d) && voters == extras_model(unagg, d)
}

/// An attestation copied field by field.
pub fn clone_attestation(a: &Attestation) -> (r: Attestation)
    ensures
        r.attesting_indices@ == a.attesting_indices@,
        r.data_root == a.data_root,
{
    let vs = a.attesting_indices.clone();
    proof {
        assert forall|i: int| 0 <= i < a.attesting_indices@.len() implies vs@[i]
            == a.attesting_indices@[i] by {}
        assert(vs@ =~= a.attesting_indices@);
    }
    Attestation { attesting_indices: vs, data_root: a.data_root }
}

/// The distinct vote targets of `atts`, in order of first appearance.
pub fn distinct_roots(atts: &Vec<Attestation>) -> (r: Vec<AttestationData>)
    ensures
        r@.no_duplicates(),
        forall|d: AttestationData| r@.contains(d) <==> has_root(atts@, d),
{
    let mut r: Vec<AttestationData> = Vec::new();
    let n = atts.len();
    for i in 0..n
        invariant
            n == atts@.len(),
            r@.no_duplicates(),
            forall|d: AttestationData| r@.contains(d) <==> has_root(atts@.subrange(0, i as int), d),
    {
        let d = atts[i].data_root;
        let mut seen = false;
        let m = r.len();
        for j in 0..m
            invariant
                m == r@.len(),
                seen <==> exists|q: int| 0 <= q < j && r@[q] == d,
        {
            if r[j].0 == d.0 && r[j].1 == d.1 && r[j].2 == d.2 && r[j].3 == d.3 {
                seen = true;
            }
        }
        let ghost pre = atts@.subrange(0, i as int);
        let ghost cur = atts@.subrange(0, i + 1 as int);
        proof {
            assert(cur =~= pre.push(atts@[i as int]));
        }
        if !seen {
            let ghost r_old = r@;
            r.push(d);
            proof {
                assert(!r_old.contains(d)) by {
                    if r_old.contains(d) {
                        let q = choose|q: int| 0 <= q < r_old.len() && r_old[q] == d;
                        assert(false);
                    }
                }
                assert forall|a: int, b: int|
                    0 <= a < r@.len() && 0 <= b < r@.len() && a != b implies r@[a] != r@[b] by {
                    if a < r@.len() - 1 && b < r@.len() - 1 {
                        assert(r@[a] == r_old[a] && r@[b] == r_old[b]);
                    } else if a == r@.len() - 1 {
                        assert(r@[b] == r_old[b]);
                    } else {
                        assert(r@[a] == r_old[a]);
                    }
                }
                assert forall|e: AttestationData| r@.contains(e) implies has_root(cur, e) by {
                    let q = choose|q: int| 0 <= q < r@.len() && r@[q] == e;
                    if q < r@.len() - 1 {
                        assert(r_old[q] == e);
                        assert(r_old.contains(e));
                        let j = choose|j: int| 0 <= j < pre.len() && pre[j].data_root == e;
                        assert(cur[j].data_root == e);
                    } else {
                        assert(cur[i as int].data_root == e);
                    }
                }
                assert forall|e: AttestationData| has_root(cur, e) implies r@.contains(e) by {
                    let j = choose|j: int| 0 <= j < cur.len() && cur[j].data_root == e;
                    if j < i {
                        assert(pre[j].data_root == e);
                        assert(has_root(pre, e));
                        assert(r_old.contains(e));
                        let q = choose|q: int| 0 <= q < r_old.len() && r_old[q] == e;
                        assert(r@[q] == e);
                    } else {
                        assert(r@[r@.len() - 1] == d);
                    }
                }
            }
        } else {
            proof {
                assert(r@.contains(d)) by {
                    let q = choose|q: int| 0 <= q < m && r@[q] == d;
                }
                assert forall|e: AttestationData| has_root(cur, e) implies r@.contains(e) by {
                    let j = choose|j: int| 0 <= j < cur.len() && cur[j].data_root == e;
                    if j < i {
                        assert(pre[j].data_root == e);
                        assert(has_root(pre, e));
                    }
                }
                assert forall|e: AttestationData| r@.contains(e) implies has_root(cur, e) by {
                    assert(has_root(pre, e));
                    let j = choose|j: int| 0 <= j < pre.len() && pre[j].data_root == e;
                    assert(cur[j].data_root == e);
                }
            }
        }
    }
    proof {
        assert(atts@.subrange(0, n as int) =~= atts@);
    }
    r
}

/// The attestations of `atts` voting for `d`, in order, copied.
pub fn group_members(atts: &Vec<Attestation>, d: &AttestationData) -> (r: Vec<Attestation>)
    ensures
        models(r@) == group_model(atts@, *d),
{
    let mut r: Vec<Attestation> = Vec::new();
    let n = atts.len();
    for i in 0..n
        invariant
            n == atts@.len(),
            models(r@) == group_model(atts@.subrange(0, i as int), *d),
    {
        let ghost pre = atts@.subrange(0, i as int);
        let ghost cur = atts@.subrange(0, i + 1 as int);
        let ghost a = atts@[i as int];
        proof {
            assert(cur.drop_last() =~= pre);
            assert(cur.last() == a);
            assert(cur.len() > 0);
        }
        if atts[i].data_root.0 == d.0 && atts[i].data_root.1 == d.1 && atts[i].data_root.2 == d.2
            && atts[i].data_root.3 == d.3 {
            let ghost r_old = r@;
            let c = clone_attestation(&atts[i]);
            r.push(c);
            proof {
                assert(a.data_root == *d);
                assert(att_model(c) == att_model(a));
                assert(r@ == r_old.push(c));
                lemma_models_push(r_old, c);
                assert(models(r@) == models(r_old).push(att_model(a))) by {
                    assert(models(r_old).push(att_model(c)) =~= models(r_old).push(att_model(a)));
                }
                assert(group_model(cur, *d) == group_model(pre, *d).push(att_model(a)));
            }
        } else {
            proof {
                assert(a.data_root != *d);
                assert(group_model(cur, *d) == group_model(pre, *d));
            }
        }
    }
    proof {
        assert(atts@.subrange(0, n as int) =~= atts@);
    }
    r
}

proof fn lemma_models_push(s: Seq<Attestation>, x: Attestation)
    ensures
        models(s.push(x)) =~= models(s).push(att_model(x)),
{
    assert forall|k: int| 0 <= k < s.push(x).len() implies #[trigger] models(s.push(x))[k]
        == models(s).push(att_model(x))[k] by {
        if k < s.len() {
            assert(s.push(x)[k] == s[k]);
        } else {
            assert(s.push(x)[k] == x);
        }
    }
}

/// Entry `k` of the target group of `d` is the model of some attestation of
/// the underlying list voting for `d`.
pub open spec fn group_entry_origin(atts: Seq<Attestation>, d: AttestationData, k: int) -> bool {
    exists|j: int|
        0 <= j < atts.len() && atts[j].data_root == d && group_model(atts, d)[k] == att_model(
            atts[j],
        )
}

proof fn lemma_group_model_origin(atts: Seq<Attestation>, d: AttestationData)
    ensures
        forall|k: int|
            0 <= k < group_model(atts, d).len() ==> #[trigger] group_entry_origin(atts, d, k),
    decreases atts.len(),
{
    if atts.len() > 0 {
        let pre = atts.drop_last();
        lemma_group_model_origin(pre, d);
        assert forall|k: int|
            0 <= k < group_model(atts, d).len() implies #[trigger] group_entry_origin(
            atts,
            d,
            k,
        ) by {
            if k < group_model(pre, d).len() {
                assert(group_entry_origin(pre, d, k));
                let j = choose|j: int|
                    0 <= j < pre.len() && pre[j].data_root == d && group_model(pre, d)[k]
                        == att_model(pre[j]);
                assert(atts[j] == pre[j]);
                assert(group_model(atts, d)[k] == att_model(atts[j]));
            } else {
                assert(atts.last().data_root == d);
                assert(group_model(atts, d)[k] == att_model(atts[atts.len() - 1]));
            }
        }
    }
}

/// Copy a voter list.
fn clone_keys(s: &Vec<EpochAttesterID>) -> (r: Vec<EpochAttesterID>)
    ensures
        r@ == s@,
{
    let rc = s.clone();
    proof {
        assert forall|i: int| 0 <= i < s@.len() implies rc@[i] == s@[i] by {}
        assert(rc@ =~= s@);
    }
    rc
}

/// The designated (first) voter of each attestation of the group, in order.
pub fn first_voters(g: &Vec<Attestation>) -> (r: Vec<EpochAttesterID>)
    requires
        forall|m: int| 0 <= m < g@.len() ==> g@[m].attesting_indices@.len() > 0,
    ensures
        r@.len() == g@.len(),
        forall|m: int| 0 <= m < g@.len() ==> r@[m] == g@[m].attesting_indices@[0],
{
    let mut r: Vec<EpochAttesterID> = Vec::new();
    let n = g.len();
    for i in 0..n
        invariant
            n == g@.len(),
            forall|m: int| 0 <= m < g@.len() ==> g@[m].attesting_indices@.len() > 0,
            r@.len() == i,
            forall|m: int| 0 <= m < i ==> r@[m] == g@[m].attesting_indices@[0],
    {
        r.push(g[i].attesting_indices[0]);
    }
    r
}

/// Fold the extras into one candidate voter list: append each extra not
/// already present, in order.
pub fn absorb_extras(clique: &mut Vec<EpochAttesterID>, extras: &Vec<EpochAttesterID>)
    ensures
        final(clique)@ == absorb_spec(old(clique)@, extras@),
{
    let ghost orig = clique@;
    let n = extras.len();
    for j in 0..n
        invariant
            n == extras@.len(),
            clique@ == absorb_spec(orig, extras@.subrange(0, j as int)),
    {
        let e = extras[j];
        let mut found = false;
        let m = clique.len();
        for t in 0..m
            invariant
                m == clique@.len(),
                found <==> exists|q: int| 0 <= q < t && clique@[q] == e,
        {
            let c = &clique[t];
            if c.epoch == e.epoch && c.attester == e.attester {
                proof {
                    assert(clique@[t as int] == e);
                }
                found = true;
            }
        }
        let ghost pre = extras@.subrange(0, j as int);
        let ghost cur = extras@.subrange(0, j + 1 as int);
        proof {
            assert(cur.drop_last() =~= pre);
            assert(cur.last() == extras@[j as int]);
        }
        if !found {
            proof {
                assert(!clique@.contains(e)) by {
                    if clique@.contains(e) {
                        let q = choose|q: int| 0 <= q < clique@.len() && clique@[q] == e;
                        assert(false);
                    }
                }
            }
            clique.push(e);
            proof {
                assert(clique@ == absorb_spec(orig, cur));
            }
        } else {
            proof {
                assert(clique@.contains(e));
                assert(clique@ == absorb_spec(orig, cur));
            }
        }
    }
    proof {
        assert(extras@.subrange(0, n as int) =~= extras@);
    }
}

/// The candidate voter sets of one aggregated target group: one per maximal
/// clique, each with the group's extras folded in.
pub fn candidates_for_target(g: &Vec<Attestation>, extras: &Vec<EpochAttesterID>) -> (cs: Vec<
    Vec<EpochAttesterID>,
>)
    ensures
        forall|i: int| 0 <= i < cs@.len() ==> is_candidate_for(g@, extras@, cs@[i]@),
        g@.len() == 0 ==> cs@.len() == 0,
        g@.len() > 0 ==> candidates_match_cliques(g@, extras@, cs@),
{
    let cliques = bron_kerbosh(g);
    let mut cs: Vec<Vec<EpochAttesterID>> = Vec::new();
    let n = cliques.len();
    for t in 0..n
        invariant
            n == cliques@.len(),
            forall|i: int|
                0 <= i < cliques@.len() ==> wf_indices(g@, cliques@[i]@) && is_maximal_clique(
                    g@,
                    cliques@[i]@.to_set(),
                ),
            cs@.len() == t,
            forall|i: int| 0 <= i < cs@.len() ==> is_candidate_for(g@, extras@, cs@[i]@),
            forall|i: int|
                0 <= i < cs@.len() ==> #[trigger] cs@[i]@ == absorb_spec(
                    flat_voters(g@, cliques@[i]@),
                    extras@,
                ),
    {
        let cl = &cliques[t];
        let mut voters = clique_union(g, cl);
        absorb_extras(&mut voters, extras);
        proof {
            assert(voters@ == absorb_spec(flat_voters(g@, cl@), extras@));
        }
        let ghost cs_old = cs@;
        cs.push(voters);
        proof {
            assert(is_candidate_for(g@, extras@, absorb_spec(flat_voters(g@, cl@), extras@))) by {
                assert(wf_indices(g@, cl@) && is_maximal_clique(g@, cl@.to_set()));
            }
            assert forall|i: int|
                0 <= i < cs@.len() implies #[trigger] cs@[i]@ == absorb_spec(
                flat_voters(g@, cliques@[i]@),
                extras@,
            ) by {
                if i < cs@.len() - 1 {
                    assert(cs@[i] == cs_old[i]);
                } else {
                    assert(cs@[i] == voters);
                }
            }
        }
    }
    proof {
        if g@.len() > 0 {
            assert(lists_maximal_cliques(g@, cliques@));
            assert(candidates_match_cliques(g@, extras@, cs@));
        }
    }
    cs
}

/// The set of vote targets occurring in `atts`.
pub open spec fn root_set(atts: Seq<Attestation>) -> Set<AttestationData> {
    Set::new(|d: AttestationData| has_root(atts, d))
}

/// Is this target among the listed ones?
pub fn contains_root(roots: &Vec<AttestationData>, d: &AttestationData) -> (r: bool)
    ensures
        r == roots@.contains(*d),
{
    let n = roots.len();
    for j in 0..n
        invariant
            n == roots@.len(),
            forall|q: int| 0 <= q < j ==> roots@[q] != *d,
    {
        if roots[j].0 == d.0 && roots[j].1 == d.1 && roots[j].2 == d.2 && roots[j].3 == d.3 {
            proof {
                assert(roots@[j as int] == *d);
            }
            return true;
        }
    }
    false
}

/// Group the attestations by their vote target: one entry per distinct
/// target, in order of first appearance, holding that target's attestations
/// in input order.
pub fn group_by_att_data(attestations: &Vec<Attestation>) -> (r: Vec<
    (AttestationData, Vec<Attestation>),
>)
    ensures
        forall|i: int, j: int| 0 <= i < j < r@.len() ==> r@[i].0 != r@[j].0,
        forall|d: AttestationData|
            (exists|i: int| 0 <= i < r@.len() && r@[i].0 == d) <==> has_root(attestations@, d),
        forall|i: int|
            0 <= i < r@.len() ==> models(r@[i].1@) == group_model(attestations@, r@[i].0),
{
    let roots = distinct_roots(attestations);
    let mut r: Vec<(AttestationData, Vec<Attestation>)> = Vec::new();
    let n = roots.len();
    for t in 0..n
        invariant
            n == roots@.len(),
            roots@.no_duplicates(),
            forall|d: AttestationData| roots@.contains(d) <==> has_root(attestations@, d),
            r@.len() == t,
            forall|m: int| 0 <= m < t ==> r@[m].0 == roots@[m],
            forall|m: int|
                0 <= m < t ==> models(r@[m].1@) == group_model(attestations@, r@[m].0),
    {
        let d = roots[t];
        let members = group_members(attestations, &d);
        let ghost r_old = r@;
        r.push((d, members));
        proof {
            assert forall|m: int| 0 <= m < t + 1 implies r@[m].0 == roots@[m] && models(r@[m].1@)
                == group_model(attestations@, r@[m].0) by {
                if m < t {
                    assert(r@[m] == r_old[m]);
                } else {
                    assert(r@[m] == (d, members));
                }
            }
        }
    }
    proof {
        assert forall|d: AttestationData|
            (exists|i: int| 0 <= i < r@.len() && r@[i].0 == d) <==> has_root(
                attestations@,
                d,
            ) by {
            if (exists|i: int| 0 <= i < r@.len() && r@[i].0 == d) {
                let i = choose|i: int| 0 <= i < r@.len() && r@[i].0 == d;
                assert(roots@[i] == d);
                assert(roots@.contains(d));
            }
            if has_root(attestations@, d) {
                assert(roots@.contains(d));
                let i = choose|i: int| 0 <= i < roots@.len() && roots@[i] == d;
                assert(r@[i].0 == d);
            }
        }
        assert forall|i: int, j: int| 0 <= i < j < r@.len() implies r@[i].0 != r@[j].0 by {
            assert(r@[i].0 == roots@[i] && r@[j].0 == roots@[j]);
        }
    }
    r
}

/// Build every candidate voter set of the instance: per aggregated target the
/// clique-derived sets with that target's unaggregated extras absorbed, plus
/// one fallback set per target seen only among unaggregated attestations.
/// Every aggregated target's candidates are all produced, every
/// unaggregated-only target's fallback set is produced, and nothing else.
/// Also returns, per target group, the number of candidate sets produced.
pub fn build_candidate_sets(aggregated: &Vec<Attestation>, unaggregated: &Vec<Attestation>) -> (r:
    (Vec<Vec<EpochAttesterID>>, Vec<usize>))
    requires
        forall|j: int| 0 <= j < unaggregated@.len() ==> unaggregated@[j].attesting_indices@.len() > 0,
    ensures
        forall|i: int| 0 <= i < r.0@.len() ==> valid_candidate(aggregated@, unaggregated@, r.0@[i]@),
        forall|d: AttestationData|
            has_root(aggregated@, d) ==> #[trigger] target_candidates_listed(
                aggregated@,
                unaggregated@,
                r.0@,
                d,
            ),
        forall|d: AttestationData|
            has_root(unaggregated@, d) && !has_root(aggregated@, d) ==> #[trigger] fallback_listed(
                unaggregated@,
                r.0@,
                d,
            ),
        r.1@.len() == root_set(aggregated@).len() + root_set(unaggregated@).len(),
        forall|i: int|
            0 <= i < root_set(aggregated@).len() ==> group_count_matches(
                aggregated@,
                #[trigger] r.1@[i],
            ),
        forall|i: int| root_set(aggregated@).len() <= i < r.1@.len() ==> r.1@[i] == 1,
{
    let roots_agg = distinct_roots(aggregated);
    let roots_unagg = distinct_roots(unaggregated);
    proof {
        assert(roots_agg@.to_set() =~= root_set(aggregated@));
        roots_agg@.unique_seq_to_set();
        assert(roots_unagg@.to_set() =~= root_set(unaggregated@));
        roots_unagg@.unique_seq_to_set();
    }
    let mut cs: Vec<Vec<EpochAttesterID>> = Vec::new();
    let mut num_cliques: Vec<usize> = Vec::new();
    let na = roots_agg.len();
    for ri in 0..na
        invariant
            na == roots_agg@.len(),
            forall|d: AttestationData| roots_agg@.contains(d) <==> has_root(aggregated@, d),
            forall|j: int|
                0 <= j < unaggregated@.len() ==> unaggregated@[j].attesting_indices@.len() > 0,
            forall|i: int|
                0 <= i < cs@.len() ==> valid_candidate(aggregated@, unaggregated@, cs@[i]@),
            forall|m: int|
                0 <= m < ri ==> target_candidates_listed(
                    aggregated@,
                    unaggregated@,
                    cs@,
                    #[trigger] roots_agg@[m],
                ),
            num_cliques@.len() == ri,
            forall|m: int|
                0 <= m < ri ==> group_count_matches(aggregated@, #[trigger] num_cliques@[m]),
    {
        let d = roots_agg[ri];
        proof {
            assert(roots_agg@[ri as int] == d);
            assert(roots_agg@.contains(d));
        }
        let g = group_members(aggregated, &d);
        let ug = group_members(unaggregated, &d);
        proof {
            lemma_group_model_origin(unaggregated@, d);
            assert forall|m: int| 0 <= m < ug@.len() implies ug@[m].attesting_indices@.len()
                > 0 by {
                assert(models(ug@)[m] == att_model(ug@[m]));
                assert(group_model(unaggregated@, d)[m] == att_model(ug@[m]));
                assert(group_entry_origin(unaggregated@, d, m));
                let j = choose|j: int|
                    0 <= j < unaggregated@.len() && unaggregated@[j].data_root == d
                        && group_model(unaggregated@, d)[m] == att_model(unaggregated@[j]);
                assert(att_model(unaggregated@[j]).0 == unaggregated@[j].attesting_indices@);
            }
        }
        let extras = first_voters(&ug);
        proof {
            assert(extras@ =~= extras_model(unaggregated@, d)) by {
                assert forall|m: int| 0 <= m < extras@.len() implies extras@[m] == extras_model(
                    unaggregated@,
                    d,
                )[m] by {
                    assert(extras@[m] == ug@[m].attesting_indices@[0]);
                    assert(models(ug@)[m] == att_model(ug@[m]));
                    assert(group_model(unaggregated@, d)[m].0 == ug@[m].attesting_indices@);
                }
            }
            assert(g@.len() > 0) by {
                lemma_group_model_nonempty(aggregated@, d);
                assert(models(g@).len() == g@.len());
            }
        }
        let group_cs = candidates_for_target(&g, &extras);
        let ghost nc_old = num_cliques@;
        num_cliques.push(group_cs.len());
        let ghost cs_before = cs@;
        let gm = group_cs.len();
        for t in 0..gm
            invariant
                gm == group_cs@.len(),
                forall|i: int|
                    0 <= i < group_cs@.len() ==> is_candidate_for(g@, extras@, group_cs@[i]@),
                forall|i: int|
                    0 <= i < cs@.len() ==> valid_candidate(aggregated@, unaggregated@, cs@[i]@),
                models(g@) == group_model(aggregated@, d),
                extras@ == extras_model(unaggregated@, d),
                has_root(aggregated@, d),
                cs@.len() == cs_before.len() + t,
                forall|i: int| 0 <= i < cs_before.len() ==> cs@[i] == cs_before[i],
                forall|m: int|
                    0 <= m < t ==> cs@[cs_before.len() + m]@ == #[trigger] group_cs@[m]@,
        {
            let copy = clone_keys(&group_cs[t]);
            let ghost cs_old = cs@;
            cs.push(copy);
            proof {
                assert(is_candidate_for(g@, extras_model(unaggregated@, d), copy@));
                assert(valid_candidate(aggregated@, unaggregated@, copy@));
                assert forall|i: int| 0 <= i < cs_before.len() implies cs@[i] == cs_before[i] by {
                    assert(cs@[i] == cs_old[i]);
                }
                assert forall|m: int|
                    0 <= m < t + 1 implies cs@[cs_before.len() + m]@ == #[trigger] group_cs@[m]@ by {
                    if m < t {
                        assert(cs@[cs_before.len() + m] == cs_old[cs_before.len() + m]);
                    } else {
                        assert(cs@[cs@.len() - 1] == copy);
                    }
                }
            }
        }
        proof {
            let e = extras_model(unaggregated@, d);
            assert(candidates_match_cliques(g@, extras@, group_cs@));
            let cls = choose|cls: Seq<Vec<usize>>|
                lists_maximal_cliques(g@, cls) && cls.len() == group_cs@.len() && (forall|i: int|
                    0 <= i < group_cs@.len() ==> #[trigger] group_cs@[i]@ == absorb_spec(
                        flat_voters(g@, cls[i]@),
                        extras@,
                    ));
            // the candidates of this target are all listed now
            assert(target_candidates_listed(aggregated@, unaggregated@, cs@, d)) by {
                assert forall|c: Set<usize>| is_maximal_clique(g@, c) implies clique_candidate_listed(
                    g@,
                    e,
                    cs@,
                    c,
                ) by {
                    let m = choose|m: int| 0 <= m < cls.len() && cls[m]@.to_set() == c;
                    assert(group_cs@[m]@ == absorb_spec(flat_voters(g@, cls[m]@), extras@));
                    assert(cs@[cs_before.len() + m]@ == group_cs@[m]@);
                    assert(wf_indices(g@, cls[m]@));
                    assert(0 <= cs_before.len() + m < cs@.len() && wf_indices(g@, cls[m]@)
                        && cls[m]@.to_set() == c && cs@[cs_before.len() + m]@ == absorb_spec(
                        flat_voters(g@, cls[m]@),
                        e,
                    ));
                }
                assert(models(g@) == group_model(aggregated@, d));
            }
            // targets of earlier rounds stay listed
            assert forall|m: int| 0 <= m < ri + 1 implies target_candidates_listed(
                aggregated@,
                unaggregated@,
                cs@,
                #[trigger] roots_agg@[m],
            ) by {
                if m < ri {
                    lemma_target_listed_monotone(
                        aggregated@,
                        unaggregated@,
                        cs_before,
                        cs@,
                        roots_agg@[m],
                    );
                } else {
                    assert(roots_agg@[m] == d);
                }
            }
            // the recorded count is this group's clique count
            assert forall|m: int| 0 <= m < ri + 1 implies group_count_matches(
                aggregated@,
                #[trigger] num_cliques@[m],
            ) by {
                if m < ri {
                    assert(num_cliques@[m] == nc_old[m]);
                } else {
                    assert(num_cliques@[m] == group_cs@.len());
                    assert(has_root(aggregated@, d) && models(g@) == group_model(aggregated@, d)
                        && lists_maximal_cliques(g@, cls) && cls.len() == num_cliques@[m]);
                }
            }
        }
    }
    let nu = roots_unagg.len();
    for ri in 0..nu
        invariant
            na == roots_agg@.len(),
            nu == roots_unagg@.len(),
            forall|d: AttestationData| roots_agg@.contains(d) <==> has_root(aggregated@, d),
            forall|d: AttestationData| roots_unagg@.contains(d) <==> has_root(unaggregated@, d),
            forall|j: int|
                0 <= j < unaggregated@.len() ==> unaggregated@[j].attesting_indices@.len() > 0,
            forall|i: int|
                0 <= i < cs@.len() ==> valid_candidate(aggregated@, unaggregated@, cs@[i]@),
            forall|m: int|
                0 <= m < na ==> target_candidates_listed(
                    aggregated@,
                    unaggregated@,
                    cs@,
                    #[trigger] roots_agg@[m],
                ),
            forall|m: int|
                0 <= m < ri && !has_root(aggregated@, roots_unagg@[m]) ==> fallback_listed(
                    unaggregated@,
                    cs@,
                    #[trigger] roots_unagg@[m],
                ),
            num_cliques@.len() == na + ri,
            forall|m: int|
                0 <= m < na ==> group_count_matches(aggregated@, #[trigger] num_cliques@[m]),
            forall|m: int| na <= m < num_cliques@.len() ==> num_cliques@[m] == 1,
    {
        let d = roots_unagg[ri];
        proof {
            assert(roots_unagg@.contains(d)) by {
                assert(roots_unagg@[ri as int] == d);
            }
        }
        if !contains_root(&roots_agg, &d) {
            let ug = group_members(unaggregated, &d);
            proof {
                lemma_group_model_origin(unaggregated@, d);
                assert forall|m: int| 0 <= m < ug@.len() implies ug@[m].attesting_indices@.len()
                    > 0 by {
                    assert(models(ug@)[m] == att_model(ug@[m]));
                    assert(group_model(unaggregated@, d)[m] == att_model(ug@[m]));
                    assert(group_entry_origin(unaggregated@, d, m));
                    let j = choose|j: int|
                        0 <= j < unaggregated@.len() && unaggregated@[j].data_root == d
                            && group_model(unaggregated@, d)[m] == att_model(unaggregated@[j]);
                    assert(att_model(unaggregated@[j]).0 == unaggregated@[j].attesting_indices@);
                }
            }
            let fallback = first_voters(&ug);
            proof {
                assert(fallback@ =~= extras_model(unaggregated@, d)) by {
                    assert forall|m: int| 0 <= m < fallback@.len() implies fallback@[m]
                        == extras_model(unaggregated@, d)[m] by {
                        assert(fallback@[m] == ug@[m].attesting_indices@[0]);
                        assert(models(ug@)[m] == att_model(ug@[m]));
                        assert(group_model(unaggregated@, d)[m].0 == ug@[m].attesting_indices@);
                    }
                }
            }
            let ghost cs_old = cs@;
            cs.push(fallback);
            proof {
                assert(valid_candidate(aggregated@, unaggregated@, cs@[cs@.len() - 1]@)) by {
                    assert(has_root(unaggregated@, d));
                    assert(!has_root(aggregated@, d));
                }
                assert(forall|i: int| 0 <= i < cs_old.len() ==> cs@[i] == cs_old[i]);
                assert forall|m: int| 0 <= m < na implies target_candidates_listed(
                    aggregated@,
                    unaggregated@,
                    cs@,
                    #[trigger] roots_agg@[m],
                ) by {
                    lemma_target_listed_monotone(
                        aggregated@,
                        unaggregated@,
                        cs_old,
                        cs@,
                        roots_agg@[m],
                    );
                }
                assert forall|m: int|
                    0 <= m < ri + 1 && !has_root(aggregated@, roots_unagg@[m]) implies fallback_listed(
                    unaggregated@,
                    cs@,
                    #[trigger] roots_unagg@[m],
                ) by {
                    if m < ri {
                        lemma_fallback_listed_monotone(unaggregated@, cs_old, cs@, roots_unagg@[m]);
                    } else {
                        assert(roots_unagg@[m] == d);
                        assert(cs@[cs@.len() - 1]@ == extras_model(unaggregated@, d));
                    }
                }
            }
        } else {
            proof {
                assert forall|m: int|
                    0 <= m < ri + 1 && !has_root(aggregated@, roots_unagg@[m]) implies fallback_listed(
                    unaggregated@,
                    cs@,
                    #[trigger] roots_unagg@[m],
                ) by {
                    if m == ri {
                        assert(roots_agg@.contains(d));
                        assert(has_root(aggregated@, roots_unagg@[m]));
                    }
                }
            }
        }
        let ghost nc_old = num_cliques@;
        num_cliques.push(1);
        proof {
            assert(forall|m: int| 0 <= m < nc_old.len() ==> num_cliques@[m] == nc_old[m]);
            assert(num_cliques@[num_cliques@.len() - 1] == 1);
        }
    }
    proof {
        assert forall|d: AttestationData| has_root(aggregated@, d) implies target_candidates_listed(
            aggregated@,
            unaggregated@,
            cs@,
            d,
        ) by {
            assert(roots_agg@.contains(d));
            let m = choose|m: int| 0 <= m < roots_agg@.len() && roots_agg@[m] == d;
            assert(target_candidates_listed(aggregated@, unaggregated@, cs@, roots_agg@[m]));
        }
        assert forall|d: AttestationData|
            has_root(unaggregated@, d) && !has_root(aggregated@, d) implies fallback_listed(
            unaggregated@,
            cs@,
            d,
        ) by {
            assert(roots_unagg@.contains(d));
            let m = choose|m: int| 0 <= m < roots_unagg@.len() && roots_unagg@[m] == d;
            assert(fallback_listed(unaggregated@, cs@, roots_unagg@[m]));
        }
    }
    (cs, num_cliques)
}

} // verus!
