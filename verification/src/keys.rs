//! A strict total order on epoch-qualified voter keys, and the sorted,
//! duplicate-free voter vectors the reindexer and the reward evaluator are
//! built on.

use vstd::prelude::*;

use crate::instance::EpochAttesterID;

verus! {

/// Strict lexicographic order on (epoch, attester).
pub open spec fn key_lt(a: EpochAttesterID, b: EpochAttesterID) -> bool {
    a.epoch < b.epoch || (a.epoch == b.epoch && a.attester < b.attester)
}

/// Every position pair of `s` is strictly increasing: sorted and free of
/// duplicates at once.
pub open spec fn strictly_sorted(s: Seq<EpochAttesterID>) -> bool {
    forall|i: int, j: int| 0 <= i < j < s.len() ==> key_lt(s[i], s[j])
}

pub fn exec_key_lt(a: &EpochAttesterID, b: &EpochAttesterID) -> (r: bool)
    ensures
        r == key_lt(*a, *b),
{
    a.epoch < b.epoch || (a.epoch == b.epoch && a.attester < b.attester)
}

pub proof fn lemma_strictly_sorted_no_duplicates(s: Seq<EpochAttesterID>)
    requires
        strictly_sorted(s),
    ensures
        s.no_duplicates(),
{
    assert forall|i: int, j: int| 0 <= i < s.len() && 0 <= j < s.len() && i != j implies s[i]
        != s[j] by {
        if i < j {
            assert(key_lt(s[i], s[j]));
        } else {
            assert(key_lt(s[j], s[i]));
        }
    }
}

/// Two strictly sorted sequences with the same members are the same sequence:
/// a set of voter keys has exactly one sorted listing.
pub proof fn lemma_strictly_sorted_unique(x: Seq<EpochAttesterID>, y: Seq<EpochAttesterID>)
    requires
        strictly_sorted(x),
        strictly_sorted(y),
        forall|k: EpochAttesterID| x.contains(k) <==> y.contains(k),
    ensures
        x =~= y,
    decreases x.len(),
{
    if x.len() == 0 {
        if y.len() > 0 {
            assert(y.contains(y[0]));
        }
    } else {
        assert(x.contains(x[0]));
        assert(y.contains(x[0]));
        assert(y.contains(y[0]));
        assert(x.contains(y[0]));
        let i = choose|i: int| 0 <= i < y.len() && y[i] == x[0];
        let j = choose|j: int| 0 <= j < x.len() && x[j] == y[0];
        assert(x[0] == y[0]) by {
            if i > 0 {
                assert(key_lt(y[0], y[i]));
            }
            if j > 0 {
                assert(key_lt(x[0], x[j]));
            }
        }
        let xt = x.drop_first();
        let yt = y.drop_first();
        assert forall|k: EpochAttesterID| xt.contains(k) implies yt.contains(k) by {
            let m = choose|m: int| 0 <= m < xt.len() && xt[m] == k;
            assert(x[m + 1] == k);
            assert(key_lt(x[0], k));
            assert(y.contains(k));
            let p = choose|p: int| 0 <= p < y.len() && y[p] == k;
            assert(p != 0);
            assert(yt[p - 1] == k);
        }
        assert forall|k: EpochAttesterID| yt.contains(k) implies xt.contains(k) by {
            let m = choose|m: int| 0 <= m < yt.len() && yt[m] == k;
            assert(y[m + 1] == k);
            assert(key_lt(y[0], k));
            assert(x.contains(k));
            let p = choose|p: int| 0 <= p < x.len() && x[p] == k;
            assert(p != 0);
            assert(xt[p - 1] == k);
        }
        lemma_strictly_sorted_unique(xt, yt);
        assert(x =~= seq![x[0]] + xt);
        assert(y =~= seq![y[0]] + yt);
    }
}

/// `k` placed at its position in a strictly sorted listing.
pub open spec fn spec_sorted_insert(q: Seq<EpochAttesterID>, k: EpochAttesterID) -> Seq<
    EpochAttesterID,
>
    decreases q.len(),
{
    if q.len() == 0 {
        seq![k]
    } else if key_lt(k, q.first()) {
        seq![k] + q
    } else {
        seq![q.first()] + spec_sorted_insert(q.drop_first(), k)
    }
}

pub proof fn lemma_spec_sorted_insert(q: Seq<EpochAttesterID>, k: EpochAttesterID)
    requires
        strictly_sorted(q),
        !q.contains(k),
    ensures
        strictly_sorted(spec_sorted_insert(q, k)),
        forall|x: EpochAttesterID|
            spec_sorted_insert(q, k).contains(x) == (q.contains(x) || x == k),
    decreases q.len(),
{
    let r = spec_sorted_insert(q, k);
    if q.len() == 0 {
        assert(r =~= seq![k]);
        assert forall|x: EpochAttesterID| r.contains(x) implies (q.contains(x) || x == k) by {
            assert(r[0] == k);
        }
        assert(r.contains(k)) by {
            assert(r[0] == k);
        }
    } else if key_lt(k, q.first()) {
        assert(r =~= seq![k] + q);
        assert(strictly_sorted(r)) by {
            assert forall|i: int, j: int| 0 <= i < j < r.len() implies key_lt(r[i], r[j]) by {
                if i == 0 {
                    assert(r[j] == q[j - 1]);
                    if j > 1 {
                        assert(key_lt(q[0], q[j - 1]));
                    }
                } else {
                    assert(r[i] == q[i - 1] && r[j] == q[j - 1]);
                }
            }
        }
        assert forall|x: EpochAttesterID| r.contains(x) implies (q.contains(x) || x == k) by {
            let m = choose|m: int| 0 <= m < r.len() && r[m] == x;
            if m > 0 {
                assert(q[m - 1] == x);
            }
        }
        assert forall|x: EpochAttesterID| q.contains(x) || x == k implies r.contains(x) by {
            if q.contains(x) {
                let m = choose|m: int| 0 <= m < q.len() && q[m] == x;
                assert(r[m + 1] == x);
            } else {
                assert(r[0] == x);
            }
        }
    } else {
        let head = q.first();
        let tail = q.drop_first();
        assert(strictly_sorted(tail)) by {
            assert forall|i: int, j: int| 0 <= i < j < tail.len() implies key_lt(
                tail[i],
                tail[j],
            ) by {
                assert(tail[i] == q[i + 1] && tail[j] == q[j + 1]);
            }
        }
        assert(!tail.contains(k)) by {
            if tail.contains(k) {
                let m = choose|m: int| 0 <= m < tail.len() && tail[m] == k;
                assert(q[m + 1] == k);
            }
        }
        lemma_spec_sorted_insert(tail, k);
        let rt = spec_sorted_insert(tail, k);
        assert(r =~= seq![head] + rt);
        // the head stays strictly below everything behind it
        assert(!key_lt(k, head) && k != head);
        assert(key_lt(head, k)) by {
            if !key_lt(head, k) {
                assert(head.epoch == k.epoch && head.attester == k.attester);
            }
        }
        assert forall|x: EpochAttesterID| rt.contains(x) implies key_lt(head, x) by {
            if tail.contains(x) {
                let m = choose|m: int| 0 <= m < tail.len() && tail[m] == x;
                assert(q[m + 1] == x);
                assert(key_lt(q[0], q[m + 1]));
            }
        }
        assert(strictly_sorted(r)) by {
            assert forall|i: int, j: int| 0 <= i < j < r.len() implies key_lt(r[i], r[j]) by {
                if i == 0 {
                    assert(r[j] == rt[j - 1]);
                    assert(rt.contains(rt[j - 1]));
                } else {
                    assert(r[i] == rt[i - 1] && r[j] == rt[j - 1]);
                }
            }
        }
        assert forall|x: EpochAttesterID| r.contains(x) implies (q.contains(x) || x == k) by {
            let m = choose|m: int| 0 <= m < r.len() && r[m] == x;
            if m == 0 {
                assert(x == head);
                assert(q[0] == x);
            } else {
                assert(rt[m - 1] == x);
                assert(rt.contains(x));
                if tail.contains(x) {
                    let w = choose|w: int| 0 <= w < tail.len() && tail[w] == x;
                    assert(q[w + 1] == x);
                }
            }
        }
        assert forall|x: EpochAttesterID| q.contains(x) || x == k implies r.contains(x) by {
            if q.contains(x) {
                let m = choose|m: int| 0 <= m < q.len() && q[m] == x;
                if m == 0 {
                    assert(r[0] == x);
                } else {
                    assert(tail[m - 1] == x);
                    assert(tail.contains(x));
                    assert(rt.contains(x));
                    let w = choose|w: int| 0 <= w < rt.len() && rt[w] == x;
                    assert(r[w + 1] == x);
                }
            } else {
                assert(rt.contains(x));
                let w = choose|w: int| 0 <= w < rt.len() && rt[w] == x;
                assert(r[w + 1] == x);
            }
        }
    }
}

/// Every finite set of voter keys has a strictly sorted listing.
pub proof fn lemma_finite_set_listable(s: Set<EpochAttesterID>)
    requires
        s.finite(),
    ensures
        exists|q: Seq<EpochAttesterID>|
            strictly_sorted(q) && (forall|x: EpochAttesterID| q.contains(x) == s.contains(x)),
    decreases s.len(),
{
    broadcast use vstd::set::group_set_axioms;

    if s.len() == 0 {
        s.lemma_len0_is_empty();
        let q = Seq::<EpochAttesterID>::empty();
        assert(strictly_sorted(q) && (forall|x: EpochAttesterID| q.contains(x) == s.contains(x)));
    } else {
        assert(exists|x: EpochAttesterID| s.contains(x)) by {
            if forall|x: EpochAttesterID| !s.contains(x) {
                assert(s =~= Set::<EpochAttesterID>::empty());
            }
        }
        let x = choose|x: EpochAttesterID| s.contains(x);
        let rest = s.remove(x);
        lemma_finite_set_listable(rest);
        let q = choose|q: Seq<EpochAttesterID>|
            strictly_sorted(q) && (forall|y: EpochAttesterID| q.contains(y) == rest.contains(y));
        assert(!q.contains(x));
        lemma_spec_sorted_insert(q, x);
        let r = spec_sorted_insert(q, x);
        assert(strictly_sorted(r) && (forall|y: EpochAttesterID| r.contains(y) == s.contains(y)));
    }
}

/// Insert `k` into a strictly sorted vector, keeping it strictly sorted;
/// a key already present is left alone.
pub fn sorted_insert(sorted: &mut Vec<EpochAttesterID>, k: EpochAttesterID)
    requires
        strictly_sorted(old(sorted)@),
    ensures
        strictly_sorted(final(sorted)@),
        forall|q: EpochAttesterID|
            final(sorted)@.contains(q) <==> (old(sorted)@.contains(q) || q == k),
{
    let ghost orig = sorted@;
    let mut pos: usize = 0;
    while pos < sorted.len() && exec_key_lt(&sorted[pos], &k)
        invariant
            sorted@ == orig,
            strictly_sorted(orig),
            pos <= sorted.len(),
            forall|i: int| 0 <= i < pos ==> key_lt(orig[i], k),
        decreases sorted.len() - pos,
    {
        pos = pos + 1;
    }
    if pos < sorted.len() && sorted[pos].epoch == k.epoch && sorted[pos].attester == k.attester {
        proof {
            assert(orig.contains(k)) by {
                assert(orig[pos as int] == k);
            }
        }
        return ;
    }
    proof {
        assert(forall|i: int| pos <= i < orig.len() ==> !key_lt(orig[i], k)) by {
            assert forall|i: int| pos <= i < orig.len() implies !key_lt(orig[i], k) by {
                if i > pos {
                    assert(key_lt(orig[pos as int], orig[i]));
                }
            }
        }
        assert(forall|i: int| pos <= i < orig.len() ==> key_lt(k, orig[i]));
    }
    sorted.insert(pos, k);
    proof {
        let s = sorted@;
        assert forall|i: int, j: int| 0 <= i < j < s.len() implies key_lt(s[i], s[j]) by {
            if j < pos {
                assert(s[i] == orig[i] && s[j] == orig[j]);
            } else if i < pos && j == pos {
                assert(s[i] == orig[i] && s[j] == k);
            } else if i < pos && j > pos {
                assert(s[i] == orig[i] && s[j] == orig[j - 1]);
            } else if i == pos {
                assert(s[i] == k && s[j] == orig[j - 1]);
            } else {
                assert(s[i] == orig[i - 1] && s[j] == orig[j - 1]);
            }
        }
        assert forall|q: EpochAttesterID| s.contains(q) implies (orig.contains(q) || q == k) by {
            let m = choose|m: int| 0 <= m < s.len() && s[m] == q;
            if m < pos {
                assert(orig[m] == q);
            } else if m > pos {
                assert(orig[m - 1] == q);
            }
        }
        assert forall|q: EpochAttesterID| orig.contains(q) || q == k implies s.contains(q) by {
            if orig.contains(q) {
                let m = choose|m: int| 0 <= m < orig.len() && orig[m] == q;
                if m < pos {
                    assert(s[m] == q);
                } else {
                    assert(s[m + 1] == q);
                }
            } else {
                assert(s[pos as int] == q);
            }
        }
    }
}

/// The strictly sorted, duplicate-free vector holding exactly the keys of
/// `keys`: the reindexer's dense universe in its canonical order.
pub fn sort_dedup(keys: &Vec<EpochAttesterID>) -> (r: Vec<EpochAttesterID>)
    ensures
        strictly_sorted(r@),
        forall|q: EpochAttesterID| r@.contains(q) <==> keys@.contains(q),
{
    let mut r: Vec<EpochAttesterID> = Vec::new();
    let n = keys.len();
    for i in 0..n
        invariant
            n == keys.len(),
            strictly_sorted(r@),
            forall|q: EpochAttesterID|
                r@.contains(q) <==> keys@.subrange(0, i as int).contains(q),
    {
        let ghost prefix = keys@.subrange(0, i as int);
        sorted_insert(&mut r, keys[i]);
        proof {
            let next = keys@.subrange(0, i + 1 as int);
            assert(next =~= prefix.push(keys@[i as int]));
            assert forall|q: EpochAttesterID| r@.contains(q) implies next.contains(q) by {
                if prefix.contains(q) {
                    let m = choose|m: int| 0 <= m < prefix.len() && prefix[m] == q;
                    assert(next[m] == q);
                } else {
                    assert(next[i as int] == q);
                }
            }
            assert forall|q: EpochAttesterID| next.contains(q) implies r@.contains(q) by {
                let m = choose|m: int| 0 <= m < next.len() && next[m] == q;
                if m < i {
                    assert(prefix[m] == q);
                }
            }
        }
    }
    proof {
        assert(keys@.subrange(0, n as int) =~= keys@);
    }
    r
}

/// Position of `k` in a strictly sorted vector that contains it.
pub fn index_of(sorted: &Vec<EpochAttesterID>, k: &EpochAttesterID) -> (r: usize)
    requires
        strictly_sorted(sorted@),
        sorted@.contains(*k),
    ensures
        r < sorted@.len(),
        sorted@[r as int] == *k,
{
    let n = sorted.len();
    let mut i: usize = 0;
    loop
        invariant
            n == sorted.len(),
            i < n,
            sorted@.contains(*k),
            forall|m: int| 0 <= m < i ==> sorted@[m] != *k,
        decreases n - i,
    {
        let c = &sorted[i];
        if c.epoch == k.epoch && c.attester == k.attester {
            return i;
        }
        proof {
            if i + 1 == n {
                let m = choose|m: int| 0 <= m < n && sorted@[m] == *k;
                assert(false);
            }
        }
        i = i + 1;
    }
}

} // verus!
