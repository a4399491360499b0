//! Data model for one packing instance: epoch-qualified voters, attestations,
//! the reward table, and the conversion from raw (slot-grouped) input data.

use vstd::prelude::*;

verus! {

/// Number of slots per epoch: an attestation produced at slot `s` qualifies
/// its voters with epoch `s / SLOTS_PER_EPOCH`.
pub const SLOTS_PER_EPOCH: u64 = 32;

pub type EpochID = u64;

pub type AttesterID = u64;

/// A slot identifier.
#[derive(Debug, PartialEq, Eq, Structural, Hash, Clone, Copy)]
pub struct SlotID(pub u64);

/// An epoch-qualified voter identity: the same raw attester id in two
/// different epochs counts as two distinct voters.
#[derive(Debug, PartialEq, Eq, Structural, Hash, Clone, Copy)]
pub struct EpochAttesterID {
    pub epoch: EpochID,
    pub attester: AttesterID,
}

/// The opaque 32-byte content hash naming what an attestation votes for.
/// Only equality matters to the packing logic; the four limbs hold the
/// hash bytes in some fixed order chosen by the caller.
#[derive(Debug, PartialEq, Eq, Structural, Hash, Clone, Copy)]
pub struct AttestationData(pub u64, pub u64, pub u64, pub u64);

/// An attestation as it appears in the input: raw attester ids, not yet
/// qualified by epoch.
#[derive(Debug, Clone)]
pub struct RawAttestation {
    pub attesting_indices: Vec<AttesterID>,
    pub data_root: AttestationData,
    pub slot: Option<SlotID>,
    pub index: u64,
}

/// An attestation whose voters have been qualified with the epoch derived
/// from the slot it was produced at.
#[derive(Debug, Clone)]
pub struct Attestation {
    pub attesting_indices: Vec<EpochAttesterID>,
    pub data_root: AttestationData,
}

/// The epoch in which a slot falls.
pub open spec fn spec_epoch_of(slot: u64) -> u64 {
    slot / SLOTS_PER_EPOCH
}

pub fn epoch_of(slot: u64) -> (epoch: u64)
    ensures
        epoch == spec_epoch_of(slot),
{
    slot / SLOTS_PER_EPOCH
}

/// The voter list an attestation gets when its raw attester ids are
/// qualified with `epoch`.
pub open spec fn spec_qualified(indices: Seq<AttesterID>, epoch: EpochID) -> Seq<EpochAttesterID> {
    indices.map_values(|a: AttesterID| EpochAttesterID { epoch, attester: a })
}

impl Attestation {
    /// Qualify a raw attestation's voters with the given epoch.
    pub fn from_raw(original: &RawAttestation, epoch: EpochID) -> (r: Attestation)
        ensures
            r.data_root == original.data_root,
            r.attesting_indices@ == spec_qualified(original.attesting_indices@, epoch),
    {
        let mut qualified: Vec<EpochAttesterID> = Vec::new();
        let n = original.attesting_indices.len();
        for i in 0..n
            invariant
                n == original.attesting_indices.len(),
                qualified@ =~= spec_qualified(original.attesting_indices@.subrange(0, i as int), epoch),
        {
            qualified.push(EpochAttesterID { epoch, attester: original.attesting_indices[i] });
            proof {
                assert(original.attesting_indices@.subrange(0, i + 1 as int)
                    =~= original.attesting_indices@.subrange(0, i as int).push(
                    original.attesting_indices@[i as int]));
            }
        }
        proof {
            assert(original.attesting_indices@.subrange(0, n as int) =~= original.attesting_indices@);
        }
        Attestation { attesting_indices: qualified, data_root: original.data_root }
    }
}

/// Reward lookup in one epoch's list of `(attester, reward)` pairs: the last
/// pair for the attester wins.
pub open spec fn pairs_lookup(pairs: Seq<(AttesterID, u64)>, a: AttesterID) -> Option<u64>
    decreases pairs.len(),
{
    if pairs.len() == 0 {
        None
    } else if pairs.last().0 == a {
        Some(pairs.last().1)
    } else {
        pairs_lookup(pairs.drop_last(), a)
    }
}

/// Reward lookup across the epoch-grouped reward data: the last entry for the
/// voter key wins.
pub open spec fn nested_lookup(
    groups: Seq<(EpochID, Vec<(AttesterID, u64)>)>,
    k: EpochAttesterID,
) -> Option<u64>
    decreases groups.len(),
{
    if groups.len() == 0 {
        None
    } else {
        let tail_res = if groups.last().0 == k.epoch {
            pairs_lookup(groups.last().1@, k.attester)
        } else {
            None
        };
        if tail_res is Some {
            tail_res
        } else {
            nested_lookup(groups.drop_last(), k)
        }
    }
}

/// The reward table: a finite map from voter key to reward, held as a vector
/// of entries with pairwise distinct keys. A voter absent from the table has
/// implicit reward 0.
pub struct RewardTable {
    pub entries: Vec<(EpochAttesterID, u64)>,
}

impl RewardTable {
    /// Keys are pairwise distinct.
    pub open spec fn wf(self) -> bool {
        forall|i: int, j: int|
            0 <= i < j < self.entries@.len() ==> self.entries@[i].0 != self.entries@[j].0
    }

    pub open spec fn spec_contains(self, k: EpochAttesterID) -> bool {
        exists|i: int| 0 <= i < self.entries@.len() && self.entries@[i].0 == k
    }

    /// The reward of `k`: its entry's value, or 0 when absent.
    pub open spec fn spec_reward(self, k: EpochAttesterID) -> u64 {
        if self.spec_contains(k) {
            self.entries@[choose|i: int| 0 <= i < self.entries@.len() && self.entries@[i].0 == k].1
        } else {
            0
        }
    }

    pub proof fn lemma_reward_at(self, i: int, k: EpochAttesterID)
        requires
            self.wf(),
            0 <= i < self.entries@.len(),
            self.entries@[i].0 == k,
        ensures
            self.spec_contains(k),
            self.spec_reward(k) == self.entries@[i].1,
    {
        assert(self.spec_contains(k));
        let j = choose|j: int| 0 <= j < self.entries@.len() && self.entries@[j].0 == k;
        if i < j {
            assert(self.entries@[i].0 != self.entries@[j].0);
        } else if j < i {
            assert(self.entries@[j].0 != self.entries@[i].0);
        }
    }

    pub fn new() -> (r: RewardTable)
        ensures
            r.wf(),
            forall|k: EpochAttesterID| !r.spec_contains(k),
            forall|k: EpochAttesterID| r.spec_reward(k) == 0,
    {
        RewardTable { entries: Vec::new() }
    }

    /// Set the reward of `k` to `v`, replacing any earlier entry.
    pub fn insert(&mut self, k: EpochAttesterID, v: u64)
        requires
            old(self).wf(),
        ensures
            final(self).wf(),
            forall|q: EpochAttesterID|
                final(self).spec_contains(q) == (old(self).spec_contains(q) || q == k),
            forall|q: EpochAttesterID|
                final(self).spec_reward(q) == if q == k {
                    v
                } else {
                    old(self).spec_reward(q)
                },
    {
        let ghost orig = self.entries@;
        let n = self.entries.len();
        let mut found: usize = n;
        for i in 0..n
            invariant
                n == self.entries@.len(),
                self.entries@ == orig,
                found == n || (found < i && orig[found as int].0 == k),
                found == n ==> forall|m: int| 0 <= m < i ==> orig[m].0 != k,
        {
            let e = &self.entries[i];
            if found == n && e.0.epoch == k.epoch && e.0.attester == k.attester {
                proof {
                    assert(orig[i as int].0 == k);
                }
                found = i;
            }
        }
        if found < n {
            let _ = self.entries.remove(found);
        }
        let ghost mid = self.entries@;
        proof {
            assert forall|i: int| 0 <= i < mid.len() implies orig.contains(#[trigger] mid[i]) by {
                if i < found {
                    assert(mid[i] == orig[i]);
                } else {
                    assert(mid[i] == orig[i + 1]);
                }
            }
        }
        self.entries.push((k, v));
        proof {
            let cur = self.entries@;
            let table = *self;
            // distinct keys: the removed scan ensures k is gone from the middle
            assert(forall|i: int| 0 <= i < mid.len() ==> mid[i].0 != k) by {
                assert forall|i: int| 0 <= i < mid.len() implies mid[i].0 != k by {
                    if found < n {
                        if i < found {
                            assert(mid[i] == orig[i]);
                            if i < found {
                                assert(orig[i].0 != orig[found as int].0);
                            }
                        } else {
                            assert(mid[i] == orig[i + 1]);
                            assert(orig[found as int].0 != orig[i + 1].0);
                        }
                    } else {
                        assert(mid[i] == orig[i]);
                    }
                }
            }
            assert(table.wf()) by {
                assert forall|i: int, j: int|
                    0 <= i < j < cur.len() implies cur[i].0 != cur[j].0 by {
                    if j < cur.len() - 1 {
                        assert(cur[i] == mid[i] && cur[j] == mid[j]);
                        if found < n {
                            lemma_remove_keeps_distinct(orig, found as int);
                        }
                    } else {
                        assert(cur[i] == mid[i] && cur[j] == (k, v));
                    }
                }
            }
            assert forall|q: EpochAttesterID|
                table.spec_contains(q) == (old(self).spec_contains(q) || q == k) by {
                if table.spec_contains(q) {
                    let i = choose|i: int| 0 <= i < cur.len() && cur[i].0 == q;
                    if i < cur.len() - 1 {
                        assert(cur[i] == mid[i]);
                        assert(orig.contains(mid[i]));
                        let m = choose|m: int| 0 <= m < orig.len() && orig[m] == mid[i];
                        assert(old(self).spec_contains(q));
                    }
                }
                if old(self).spec_contains(q) && q != k {
                    let i = choose|i: int| 0 <= i < orig.len() && orig[i].0 == q;
                    if found < n {
                        assert(i != found);
                        if i < found {
                            assert(mid[i] == orig[i]);
                            assert(cur[i] == orig[i]);
                        } else {
                            assert(mid[i - 1] == orig[i]);
                            assert(cur[i - 1] == orig[i]);
                        }
                    } else {
                        assert(cur[i] == orig[i]);
                    }
                    assert(table.spec_contains(q));
                }
                if q == k {
                    assert(cur[cur.len() - 1].0 == k);
                    assert(table.spec_contains(q));
                }
            }
            assert forall|q: EpochAttesterID|
                table.spec_reward(q) == (if q == k {
                    v
                } else {
                    old(self).spec_reward(q)
                }) by {
                if q == k {
                    table.lemma_reward_at(cur.len() - 1, k);
                } else if table.spec_contains(q) {
                    let i = choose|i: int| 0 <= i < cur.len() && cur[i].0 == q;
                    assert(i < cur.len() - 1);
                    assert(cur[i] == mid[i]);
                    assert(orig.contains(mid[i]));
                    let m = choose|m: int| 0 <= m < orig.len() && orig[m] == mid[i];
                    table.lemma_reward_at(i, q);
                    old(self).lemma_reward_at(m, q);
                }
            }
        }
    }

    /// The reward recorded for `k`, or 0 when the voter is absent.
    pub fn reward_of(&self, k: &EpochAttesterID) -> (r: u64)
        requires
            self.wf(),
        ensures
            r == self.spec_reward(*k),
    {
        let n = self.entries.len();
        for i in 0..n
            invariant
                n == self.entries@.len(),
                self.wf(),
                forall|m: int| 0 <= m < i ==> self.entries@[m].0 != *k,
        {
            let e = &self.entries[i];
            if e.0.epoch == k.epoch && e.0.attester == k.attester {
                proof {
                    assert(self.entries@[i as int].0 == *k);
                    self.lemma_reward_at(i as int, *k);
                }
                return self.entries[i].1;
            }
        }
        proof {
            if self.spec_contains(*k) {
                let i = choose|i: int|
                    0 <= i < self.entries@.len() && self.entries@[i].0 == *k;
                assert(false);
            }
        }
        0
    }
}

/// A raw instance as read from the input: attestations grouped by the slot at
/// which they were produced, the reward data grouped by epoch, and the
/// precomputed baseline selection.
pub struct RawInstance {
    pub slot: SlotID,
    pub unaggregated_attestations: Vec<(SlotID, Vec<RawAttestation>)>,
    pub aggregated_attestations: Vec<(SlotID, Vec<RawAttestation>)>,
    pub reward_function: Vec<(EpochID, Vec<(AttesterID, u64)>)>,
    pub greedy_solution: Vec<RawAttestation>,
}

/// One problem instance with every voter epoch-qualified.
pub struct Instance {
    pub slot: SlotID,
    pub aggregated_attestations: Vec<Attestation>,
    pub unaggregated_attestations: Vec<Attestation>,
    pub reward_function: RewardTable,
    pub attestation_data: Vec<AttestationData>,
    pub greedy_solution: Vec<Vec<EpochAttesterID>>,
}

/// The models of one slot group once qualified: each raw attestation's voters
/// paired with the epoch of the group's slot.
pub open spec fn slot_group_model(slot: SlotID, ratts: Seq<RawAttestation>) -> Seq<
    (Seq<EpochAttesterID>, AttestationData),
>
    decreases ratts.len(),
{
    if ratts.len() == 0 {
        Seq::empty()
    } else {
        slot_group_model(slot, ratts.drop_last()).push(
            (
                spec_qualified(ratts.last().attesting_indices@, spec_epoch_of(slot.0)),
                ratts.last().data_root,
            ),
        )
    }
}

/// The models of all slot groups, concatenated in group order.
pub open spec fn qualify_model(groups: Seq<(SlotID, Vec<RawAttestation>)>) -> Seq<
    (Seq<EpochAttesterID>, AttestationData),
>
    decreases groups.len(),
{
    if groups.len() == 0 {
        Seq::empty()
    } else {
        qualify_model(groups.drop_last()) + slot_group_model(
            groups.last().0,
            groups.last().1@,
        )
    }
}

/// The baseline selection's voter lists, each qualified by its own record's
/// slot.
pub open spec fn greedy_model(ratts: Seq<RawAttestation>) -> Seq<Seq<EpochAttesterID>>
    decreases ratts.len(),
{
    if ratts.len() == 0 {
        Seq::empty()
    } else {
        greedy_model(ratts.drop_last()).push(
            spec_qualified(
                ratts.last().attesting_indices@,
                spec_epoch_of((ratts.last().slot->0).0),
            ),
        )
    }
}

/// The views of a sequence of voter-key vectors.
pub open spec fn lists_model(ls: Seq<Vec<EpochAttesterID>>) -> Seq<Seq<EpochAttesterID>>
    decreases ls.len(),
{
    if ls.len() == 0 {
        Seq::empty()
    } else {
        lists_model(ls.drop_last()).push(ls.last()@)
    }
}

/// Qualify every attestation of every slot group, in order.
fn qualify_groups(groups: &Vec<(SlotID, Vec<RawAttestation>)>) -> (r: Vec<Attestation>)
    ensures
        crate::candidates::models(r@) == qualify_model(groups@),
{
    let mut r: Vec<Attestation> = Vec::new();
    let n = groups.len();
    for gi in 0..n
        invariant
            n == groups@.len(),
            crate::candidates::models(r@) == qualify_model(groups@.subrange(0, gi as int)),
    {
        let ghost gpre = groups@.subrange(0, gi as int);
        let ghost gcur = groups@.subrange(0, gi + 1 as int);
        proof {
            assert(gcur.drop_last() =~= gpre);
            assert(gcur.last() == groups@[gi as int]);
        }
        let slot = groups[gi].0;
        let epoch = epoch_of(slot.0);
        let m = groups[gi].1.len();
        let ghost base = crate::candidates::models(r@);
        for j in 0..m
            invariant
                n == groups@.len(),
                gi < n,
                m == groups@[gi as int].1@.len(),
                slot == groups@[gi as int].0,
                epoch == spec_epoch_of(slot.0),
                crate::candidates::models(r@) == base + slot_group_model(
                    slot,
                    groups@[gi as int].1@.subrange(0, j as int),
                ),
        {
            let ghost rpre = groups@[gi as int].1@.subrange(0, j as int);
            let ghost rcur = groups@[gi as int].1@.subrange(0, j + 1 as int);
            let ghost ra = groups@[gi as int].1@[j as int];
            proof {
                assert(rcur.drop_last() =~= rpre);
                assert(rcur.last() == ra);
            }
            let ghost r_old = r@;
            let a = Attestation::from_raw(&groups[gi].1[j], epoch);
            r.push(a);
            proof {
                assert(crate::candidates::att_model(a) == (
                    spec_qualified(ra.attesting_indices@, spec_epoch_of(slot.0)),
                    ra.data_root,
                ));
                lemma_models_push_instance(r_old, a);
                assert(crate::candidates::models(r@) =~= base + slot_group_model(slot, rcur));
            }
        }
        proof {
            assert(groups@[gi as int].1@.subrange(0, m as int) =~= groups@[gi as int].1@);
            assert(crate::candidates::models(r@) == qualify_model(gcur));
        }
    }
    proof {
        assert(groups@.subrange(0, n as int) =~= groups@);
    }
    r
}

proof fn lemma_models_push_instance(s: Seq<Attestation>, x: Attestation)
    ensures
        crate::candidates::models(s.push(x)) =~= crate::candidates::models(s).push(
            crate::candidates::att_model(x),
        ),
{
    assert forall|k: int|
        0 <= k < s.push(x).len() implies #[trigger] crate::candidates::models(s.push(x))[k]
        == crate::candidates::models(s).push(crate::candidates::att_model(x))[k] by {
        if k < s.len() {
            assert(s.push(x)[k] == s[k]);
        } else {
            assert(s.push(x)[k] == x);
        }
    }
}

impl Instance {
    /// Qualify a raw instance: derive each attestation's voter epoch from its
    /// slot group, flatten the reward data into one table (later entries
    /// winning), record the distinct aggregated targets, and qualify the
    /// baseline selection by each record's own slot.
    pub fn from(original: RawInstance) -> (r: Instance)
        requires
            forall|i: int|
                0 <= i < original.greedy_solution@.len()
                    ==> original.greedy_solution@[i].slot is Some,
        ensures
            r.slot == original.slot,
            crate::candidates::models(r.aggregated_attestations@) == qualify_model(
                original.aggregated_attestations@,
            ),
            crate::candidates::models(r.unaggregated_attestations@) == qualify_model(
                original.unaggregated_attestations@,
            ),
            r.reward_function.wf(),
            forall|k: EpochAttesterID|
                r.reward_function.spec_contains(k) == (nested_lookup(
                    original.reward_function@,
                    k,
                ) is Some),
            forall|k: EpochAttesterID|
                r.reward_function.spec_reward(k) == (match nested_lookup(
                    original.reward_function@,
                    k,
                ) {
                    Some(v) => v,
                    None => 0u64,
                }),
            r.attestation_data@.no_duplicates(),
            forall|d: AttestationData|
                r.attestation_data@.contains(d) <==> crate::candidates::has_root(
                    r.aggregated_attestations@,
                    d,
                ),
            lists_model(r.greedy_solution@) == greedy_model(original.greedy_solution@),
    {
        let aggregated = qualify_groups(&original.aggregated_attestations);
        let unaggregated = qualify_groups(&original.unaggregated_attestations);
        let attestation_data = crate::candidates::distinct_roots(&aggregated);
        let mut table = RewardTable::new();
        let ng = original.reward_function.len();
        for gi in 0..ng
            invariant
                ng == original.reward_function@.len(),
                table.wf(),
                forall|k: EpochAttesterID|
                    table.spec_contains(k) == (nested_lookup(
                        original.reward_function@.subrange(0, gi as int),
                        k,
                    ) is Some),
                forall|k: EpochAttesterID|
                    table.spec_reward(k) == (match nested_lookup(
                        original.reward_function@.subrange(0, gi as int),
                        k,
                    ) {
                        Some(v) => v,
                        None => 0u64,
                    }),
        {
            let epoch = original.reward_function[gi].0;
            let np = original.reward_function[gi].1.len();
            let ghost gpre = original.reward_function@.subrange(0, gi as int);
            let ghost gcur = original.reward_function@.subrange(0, gi + 1 as int);
            proof {
                assert(gcur.drop_last() =~= gpre);
                assert(gcur.last() == original.reward_function@[gi as int]);
            }
            for pi in 0..np
                invariant
                    ng == original.reward_function@.len(),
                    gi < ng,
                    np == original.reward_function@[gi as int].1@.len(),
                    epoch == original.reward_function@[gi as int].0,
                    gpre == original.reward_function@.subrange(0, gi as int),
                    table.wf(),
                    forall|k: EpochAttesterID|
                        table.spec_contains(k) == (combined_lookup(
                            gpre,
                            epoch,
                            original.reward_function@[gi as int].1@.subrange(0, pi as int),
                            k,
                        ) is Some),
                    forall|k: EpochAttesterID|
                        table.spec_reward(k) == (match combined_lookup(
                            gpre,
                            epoch,
                            original.reward_function@[gi as int].1@.subrange(0, pi as int),
                            k,
                        ) {
                            Some(v) => v,
                            None => 0u64,
                        }),
            {
                let a = original.reward_function[gi].1[pi].0;
                let v = original.reward_function[gi].1[pi].1;
                let ghost ppre = original.reward_function@[gi as int].1@.subrange(0, pi as int);
                let ghost pcur = original.reward_function@[gi as int].1@.subrange(0, pi + 1 as int);
                proof {
                    assert(pcur.drop_last() =~= ppre);
                    assert(pcur.last() == original.reward_function@[gi as int].1@[pi as int]);
                }
                table.insert(EpochAttesterID { epoch, attester: a }, v);
                proof {
                    assert forall|k: EpochAttesterID|
                        table.spec_contains(k) == (combined_lookup(gpre, epoch, pcur, k)
                            is Some) by {
                        lemma_combined_step(gpre, epoch, ppre, a, v, k);
                    }
                    assert forall|k: EpochAttesterID|
                        table.spec_reward(k) == (match combined_lookup(gpre, epoch, pcur, k) {
                            Some(w) => w,
                            None => 0u64,
                        }) by {
                        lemma_combined_step(gpre, epoch, ppre, a, v, k);
                    }
                }
            }
            proof {
                assert(original.reward_function@[gi as int].1@.subrange(0, np as int)
                    =~= original.reward_function@[gi as int].1@);
                assert forall|k: EpochAttesterID|
                    (combined_lookup(
                        gpre,
                        epoch,
                        original.reward_function@[gi as int].1@,
                        k,
                    )) == (nested_lookup(gcur, k)) by {
                    lemma_combined_is_nested(gpre, original.reward_function@[gi as int], k);
                }
            }
        }
        proof {
            assert(original.reward_function@.subrange(0, ng as int)
                =~= original.reward_function@);
        }
        let mut greedy: Vec<Vec<EpochAttesterID>> = Vec::new();
        let nn = original.greedy_solution.len();
        for i in 0..nn
            invariant
                nn == original.greedy_solution@.len(),
                forall|m: int|
                    0 <= m < original.greedy_solution@.len()
                        ==> original.greedy_solution@[m].slot is Some,
                lists_model(greedy@) == greedy_model(original.greedy_solution@.subrange(0, i as int)),
        {
            let ghost pre = original.greedy_solution@.subrange(0, i as int);
            let ghost cur = original.greedy_solution@.subrange(0, i + 1 as int);
            let ghost ra = original.greedy_solution@[i as int];
            proof {
                assert(cur.drop_last() =~= pre);
                assert(cur.last() == ra);
            }
            let raw = &original.greedy_solution[i];
            let slot = match &raw.slot {
                Some(s) => s.0,
                None => 0,
            };
            let epoch = epoch_of(slot);
            let a = Attestation::from_raw(raw, epoch);
            let ghost g_old = greedy@;
            greedy.push(a.attesting_indices);
            proof {
                assert(slot == (ra.slot->0).0);
                lemma_lists_model_push(g_old, greedy@.last());
                assert(greedy@.drop_last() =~= g_old);
                assert(greedy@ == g_old.push(greedy@.last()));
                assert(greedy@.last()@ == spec_qualified(
                    ra.attesting_indices@,
                    spec_epoch_of((ra.slot->0).0),
                ));
                assert(lists_model(greedy@) =~= greedy_model(cur));
            }
        }
        proof {
            assert(original.greedy_solution@.subrange(0, nn as int)
                =~= original.greedy_solution@);
        }
        Instance {
            slot: original.slot,
            aggregated_attestations: aggregated,
            unaggregated_attestations: unaggregated,
            reward_function: table,
            attestation_data,
            greedy_solution: greedy,
        }
    }
}

proof fn lemma_lists_model_push(s: Seq<Vec<EpochAttesterID>>, x: Vec<EpochAttesterID>)
    ensures
        lists_model(s.push(x)) == lists_model(s).push(x@),
{
    assert(s.push(x).drop_last() =~= s);
    assert(s.push(x).last() == x);
    assert(lists_model(s.push(x)) == lists_model(s.push(x).drop_last()).push(x@));
}

/// Lookup across the fully processed epoch groups `done` plus a partially
/// processed group for `epoch` whose pairs so far are `pairs`.
pub open spec fn combined_lookup(
    done: Seq<(EpochID, Vec<(AttesterID, u64)>)>,
    epoch: EpochID,
    pairs: Seq<(AttesterID, u64)>,
    k: EpochAttesterID,
) -> Option<u64> {
    let part = if epoch == k.epoch {
        pairs_lookup(pairs, k.attester)
    } else {
        None
    };
    if part is Some {
        part
    } else {
        nested_lookup(done, k)
    }
}

proof fn lemma_combined_step(
    done: Seq<(EpochID, Vec<(AttesterID, u64)>)>,
    epoch: EpochID,
    pairs: Seq<(AttesterID, u64)>,
    a: AttesterID,
    v: u64,
    k: EpochAttesterID,
)
    ensures
        combined_lookup(done, epoch, pairs.push((a, v)), k) == (if k == (EpochAttesterID {
            epoch,
            attester: a,
        }) {
            Some(v)
        } else {
            combined_lookup(done, epoch, pairs, k)
        }),
{
    assert(pairs.push((a, v)).drop_last() =~= pairs);
    assert(pairs.push((a, v)).last() == (a, v));
}

proof fn lemma_combined_is_nested(
    done: Seq<(EpochID, Vec<(AttesterID, u64)>)>,
    group: (EpochID, Vec<(AttesterID, u64)>),
    k: EpochAttesterID,
)
    ensures
        combined_lookup(done, group.0, group.1@, k) == nested_lookup(done.push(group), k),
{
    assert(done.push(group).drop_last() =~= done);
    assert(done.push(group).last() == group);
}

proof fn lemma_remove_keeps_distinct(s: Seq<(EpochAttesterID, u64)>, at: int)
    requires
        0 <= at < s.len(),
        forall|i: int, j: int| 0 <= i < j < s.len() ==> s[i].0 != s[j].0,
    ensures
        forall|i: int, j: int| 0 <= i < j < s.remove(at).len() ==> s.remove(at)[i].0 != s.remove(
            at,
        )[j].0,
{
    let r = s.remove(at);
    assert forall|i: int, j: int| 0 <= i < j < r.len() implies r[i].0 != r[j].0 by {
        let oi = if i < at {
            i
        } else {
            i + 1
        };
        let oj = if j < at {
            j
        } else {
            j + 1
        };
        assert(r[i] == s[oi] && r[j] == s[oj]);
    }
}

} // verus!
