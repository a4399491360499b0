//! The Weighted Maximum Coverage problem: choose at most `k` of the candidate
//! sets so that the total weight of the covered universe elements is as large
//! as possible. The integer program itself is handed to an outside solving
//! backend; this module states the problem, checks a returned selection
//! against the constraints, and computes the objective a selection achieves,
//! counting every covered element exactly once.

use vstd::prelude::*;

verus! {

/// A problem instance: candidate sets over a dense universe `0..weights.len()`,
/// one weight per universe element, and the selection cap `k`.
pub struct WeightedMaximumCoverage {
    /// Sets to select from, as lists of universe element indices.
    pub sets: Vec<Vec<usize>>,
    /// Weights of the elements.
    pub weights: Vec<u64>,
    /// Limit for the size of the solution (number of selected sets).
    pub k: usize,
}

impl WeightedMaximumCoverage {
    /// Every listed element index lies inside the universe.
    pub open spec fn wf(self) -> bool {
        forall|i: int, j: int|
            0 <= i < self.sets@.len() && 0 <= j < self.sets@[i]@.len() ==> self.sets@[i]@[j]
                < self.weights@.len()
    }

    /// Element `e` is covered by the selection `sel`.
    pub open spec fn covered(self, sel: Seq<usize>, e: usize) -> bool {
        exists|i: int|
            0 <= i < sel.len() && sel[i] < self.sets@.len() && self.sets@[sel[i] as int]@.contains(
                e,
            )
    }

    /// Total weight of the covered elements among the first `e` universe
    /// elements: each element counts at most once, however many selected sets
    /// contain it.
    pub open spec fn objective_upto(self, sel: Seq<usize>, e: int) -> int
        decreases e,
    {
        if e <= 0 {
            0
        } else {
            self.objective_upto(sel, e - 1) + if self.covered(sel, (e - 1) as usize) {
                self.weights@[e - 1] as int
            } else {
                0
            }
        }
    }

    /// The objective value the selection achieves: the sum of the weights of
    /// the union of the selected sets' elements.
    pub open spec fn spec_objective(self, sel: Seq<usize>) -> int {
        self.objective_upto(sel, self.weights@.len() as int)
    }

    /// A selection the solver may legally return: at most `k` distinct
    /// in-range set indices.
    pub open spec fn valid_selection(self, sel: Seq<usize>) -> bool {
        &&& sel.len() <= self.k
        &&& sel.no_duplicates()
        &&& forall|i: int| 0 <= i < sel.len() ==> sel[i] < self.sets@.len()
    }

    /// For each universe element, the selectable sets containing it, in
    /// increasing index order.
    pub fn sets_containing(&self) -> (r: Vec<Vec<usize>>)
        ensures
            r@.len() == self.weights@.len(),
            forall|e: int, i: usize| #![trigger r@[e]@.contains(i)]
                0 <= e < r@.len() ==> (r@[e]@.contains(i) <==> (i < self.sets@.len()
                    && self.sets@[i as int]@.contains(e as usize))),
    {
        let mut r: Vec<Vec<usize>> = Vec::new();
        let ne = self.weights.len();
        let ns = self.sets.len();
        for e in 0..ne
            invariant
                ne == self.weights@.len(),
                ns == self.sets@.len(),
                r@.len() == e,
                forall|q: int, i: usize| #![trigger r@[q]@.contains(i)]
                    0 <= q < e ==> (r@[q]@.contains(i) <==> (i < self.sets@.len()
                        && self.sets@[i as int]@.contains(q as usize))),
        {
            let mut row: Vec<usize> = Vec::new();
            for i in 0..ns
                invariant
                    ns == self.sets@.len(),
                    e < ne,
                    ne == self.weights@.len(),
                    forall|q: usize|
                        row@.contains(q) <==> ((q as int) < i && self.sets@[q as int]@.contains(
                            e,
                        )),
            {
                if contains_element(&self.sets[i], e) {
                    let ghost row_old = row@;
                    row.push(i);
                    proof {
                        assert forall|q: usize|
                            row@.contains(q) <==> ((q as int) < i + 1
                                && self.sets@[q as int]@.contains(e)) by {
                            if row@.contains(q) {
                                let m = choose|m: int| 0 <= m < row@.len() && row@[m] == q;
                                if m < row@.len() - 1 {
                                    assert(row_old[m] == q);
                                    assert(row_old.contains(q));
                                }
                            }
                            if (q as int) < i + 1 && self.sets@[q as int]@.contains(e) {
                                if (q as int) < i {
                                    assert(row_old.contains(q));
                                    let m = choose|m: int|
                                        0 <= m < row_old.len() && row_old[m] == q;
                                    assert(row@[m] == q);
                                } else {
                                    assert(row@[row@.len() - 1] == i);
                                }
                            }
                        }
                    }
                } else {
                    proof {
                        assert forall|q: usize|
                            row@.contains(q) <==> ((q as int) < i + 1
                                && self.sets@[q as int]@.contains(e)) by {
                            if (q as int) < i + 1 && self.sets@[q as int]@.contains(e) {
                                assert(q != i);
                            }
                        }
                    }
                }
            }
            r.push(row);
        }
        r
    }

    /// Does `sel` satisfy the problem's constraints: at most `k` distinct
    /// selectable set indices?
    pub fn check_selection(&self, sel: &Vec<usize>) -> (r: bool)
        ensures
            r == self.valid_selection(sel@),
    {
        if sel.len() > self.k {
            return false;
        }
        let n = sel.len();
        for i in 0..n
            invariant
                n == sel@.len(),
                forall|a: int| 0 <= a < i ==> sel@[a] < self.sets@.len(),
                forall|a: int, b: int| 0 <= a < b < i ==> sel@[a] != sel@[b],
        {
            if sel[i] >= self.sets.len() {
                proof {
                    assert(!self.valid_selection(sel@));
                }
                return false;
            }
            for j in 0..i
                invariant
                    i < n,
                    n == sel@.len(),
                    forall|b: int| 0 <= b < j ==> sel@[b] != sel@[i as int],
            {
                if sel[j] == sel[i] {
                    proof {
                        assert(sel@[j as int] == sel@[i as int]);
                        assert(!sel@.no_duplicates());
                    }
                    return false;
                }
            }
        }
        proof {
            assert(sel@.no_duplicates()) by {
                assert forall|a: int, b: int|
                    0 <= a < sel@.len() && 0 <= b < sel@.len() && a != b implies sel@[a]
                    != sel@[b] by {
                    if a < b {
                    } else {
                    }
                }
            }
        }
        true
    }

    /// The objective value `sel` achieves: the summed weight of the union of
    /// the selected sets' elements, each element counted once.
    pub fn selection_objective(&self, sel: &Vec<usize>) -> (r: u128)
        ensures
            r == self.spec_objective(sel@),
    {
        let mut acc: u128 = 0;
        let ne = self.weights.len();
        let ns = self.sets.len();
        for e in 0..ne
            invariant
                ne == self.weights@.len(),
                ns == self.sets@.len(),
                acc == self.objective_upto(sel@, e as int),
                acc <= e as int * (u64::MAX as int),
        {
            let mut cov = false;
            let m = sel.len();
            for i in 0..m
                invariant
                    m == sel@.len(),
                    ns == self.sets@.len(),
                    e < ne,
                    ne == self.weights@.len(),
                    cov <==> exists|q: int|
                        0 <= q < i && sel@[q] < self.sets@.len() && self.sets@[sel@[q] as int]@
                            .contains(e),
            {
                if sel[i] < ns && contains_element(&self.sets[sel[i]], e) {
                    proof {
                        assert(sel@[i as int] < self.sets@.len() && self.sets@[sel@[i as int] as int]@.contains(e));
                    }
                    cov = true;
                }
            }
            proof {
                assert(cov == self.covered(sel@, e));
                assert((e + 1) as int * (u64::MAX as int) == e as int * (u64::MAX as int) + (
                u64::MAX as int)) by (nonlinear_arith);
                assert(e as int * (u64::MAX as int) <= (usize::MAX as int) * (u64::MAX as int))
                    by (nonlinear_arith)
                    requires
                        0 <= e as int <= usize::MAX as int,
                ;
            }
            if cov {
                acc = acc + self.weights[e] as u128;
            }
        }
        acc
    }
}

proof fn lemma_objective_upto_congruent(
    p: WeightedMaximumCoverage,
    a: Seq<usize>,
    b: Seq<usize>,
    e: int,
)
    requires
        p.weights@.len() <= usize::MAX,
        e <= p.weights@.len(),
        forall|q: usize| q < p.weights@.len() ==> p.covered(a, q) == p.covered(b, q),
    ensures
        p.objective_upto(a, e) == p.objective_upto(b, e),
    decreases e,
{
    if e > 0 {
        lemma_objective_upto_congruent(p, a, b, e - 1);
        assert(p.covered(a, (e - 1) as usize) == p.covered(b, (e - 1) as usize));
    }
}

/// No double counting: the objective a selection achieves depends only on
/// which universe elements it covers, never on how many selected sets cover
/// each of them.
pub proof fn lemma_objective_depends_only_on_coverage(
    p: WeightedMaximumCoverage,
    a: Seq<usize>,
    b: Seq<usize>,
)
    requires
        p.weights@.len() <= usize::MAX,
        forall|q: usize| q < p.weights@.len() ==> p.covered(a, q) == p.covered(b, q),
    ensures
        p.spec_objective(a) == p.spec_objective(b),
{
    lemma_objective_upto_congruent(p, a, b, p.weights@.len() as int);
}

/// Does the index list contain `e`?
fn contains_element(s: &Vec<usize>, e: usize) -> (r: bool)
    ensures
        r == s@.contains(e),
{
    let n = s.len();
    for j in 0..n
        invariant
            n == s@.len(),
            forall|q: int| 0 <= q < j ==> s@[q] != e,
    {
        if s[j] == e {
            proof {
                assert(s@[j as int] == e);
            }
            return true;
        }
    }
    false
}

} // verus!
