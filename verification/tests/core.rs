use sigmaprime::candidates::build_candidate_sets;
use sigmaprime::candidates::candidates_for_target;
use sigmaprime::candidates::group_by_att_data;
use sigmaprime::cliques::bron_kerbosh;
use sigmaprime::cliques::is_compatible;
use sigmaprime::instance::epoch_of;
use sigmaprime::mip_approach::build_coverage_problem;
use sigmaprime::mip_approach::build_coverage_problem_with_cap;
use sigmaprime::mip_approach::calculate_reward;
use sigmaprime::mip_approach::clique_stats;
use sigmaprime::mip_approach::count_distinct_voters;
use sigmaprime::mip_approach::loss_ratio;
use sigmaprime::mip_approach::select_candidates;
use sigmaprime::mip_approach::unreindex;
use sigmaprime::mip_approach::LossRatio;
use sigmaprime::n_unique_roots::n_unique_roots;
use sigmaprime::Attestation;
use sigmaprime::AttestationData;
use sigmaprime::EpochAttesterID;
use sigmaprime::Instance;
use sigmaprime::RawAttestation;
use sigmaprime::RawInstance;
use sigmaprime::RewardTable;
use sigmaprime::SlotID;

fn key(attester: u64) -> EpochAttesterID {
    EpochAttesterID { epoch: 0, attester }
}

fn root(x: u64) -> AttestationData {
    AttestationData(x, 0, 0, 0)
}

fn att(r: u64, voters: &[u64]) -> Attestation {
    Attestation {
        attesting_indices: voters.iter().map(|&v| key(v)).collect(),
        data_root: root(r),
    }
}

fn sorted_ids(voters: &[EpochAttesterID]) -> Vec<u64> {
    let mut ids: Vec<u64> = voters.iter().map(|k| k.attester).collect();
    ids.sort_unstable();
    ids.dedup();
    ids
}

#[test]
fn epoch_of_splits_slots() {
    assert_eq!(epoch_of(0), 0);
    assert_eq!(epoch_of(31), 0);
    assert_eq!(epoch_of(32), 1);
    assert_eq!(epoch_of(95), 2);
}

#[test]
fn compatibility_is_voter_disjointness() {
    let a = att(1, &[1, 2]);
    let b = att(1, &[3]);
    let c = att(1, &[2, 3]);
    assert!(is_compatible(&a, &b));
    assert!(is_compatible(&b, &a));
    assert!(!is_compatible(&a, &c));
    assert!(is_compatible(&att(1, &[]), &att(1, &[])));
}

#[test]
fn disjoint_pair_forms_one_clique() {
    // two attestations for the same target with disjoint voters
    let atts = vec![att(7, &[1, 2]), att(7, &[3])];
    let cliques = bron_kerbosh(&atts);
    assert_eq!(cliques.len(), 1);
    let mut c = cliques[0].clone();
    c.sort_unstable();
    assert_eq!(c, vec![0, 1]);
    let cs = candidates_for_target(&atts, &Vec::new());
    assert_eq!(cs.len(), 1);
    assert_eq!(sorted_ids(&cs[0]), vec![1, 2, 3]);
}

#[test]
fn overlapping_pair_forms_two_singletons() {
    // overlapping voters: no edge, two singleton cliques
    let atts = vec![att(7, &[1, 2]), att(7, &[2, 3])];
    let cliques = bron_kerbosh(&atts);
    assert_eq!(cliques.len(), 2);
    let mut seen: Vec<Vec<usize>> = cliques.clone();
    seen.sort();
    assert_eq!(seen, vec![vec![0], vec![1]]);
    let cs = candidates_for_target(&atts, &Vec::new());
    assert_eq!(cs.len(), 2);
    let mut sets: Vec<Vec<u64>> = cs.iter().map(|c| sorted_ids(c)).collect();
    sets.sort();
    assert_eq!(sets, vec![vec![1, 2], vec![2, 3]]);
}

#[test]
fn empty_input_yields_no_cliques() {
    let atts: Vec<Attestation> = Vec::new();
    assert_eq!(bron_kerbosh(&atts).len(), 0);
}

#[test]
fn no_edges_yields_n_singletons() {
    let atts = vec![att(7, &[1]), att(7, &[1, 2]), att(7, &[2])];
    // every pair shares a voter except (0, 2); make them overlap too
    let atts = vec![atts[0].clone(), atts[1].clone(), att(7, &[2, 1])];
    let cliques = bron_kerbosh(&atts);
    assert_eq!(cliques.len(), 3);
    let mut seen: Vec<Vec<usize>> = cliques;
    seen.sort();
    assert_eq!(seen, vec![vec![0], vec![1], vec![2]]);
}

#[test]
fn extras_absorbed_only_when_missing() {
    let atts = vec![att(7, &[1, 2]), att(7, &[3])];
    let extras = vec![key(2), key(9)];
    let cs = candidates_for_target(&atts, &extras);
    assert_eq!(cs.len(), 1);
    // 2 is already present; 9 is appended
    assert_eq!(sorted_ids(&cs[0]), vec![1, 2, 3, 9]);
}

#[test]
fn fallback_set_for_unaggregated_only_target() {
    let aggregated = vec![att(1, &[1, 2])];
    let unaggregated = vec![att(2, &[5]), att(2, &[6]), att(1, &[9])];
    let (cs, num_cliques) = build_candidate_sets(&aggregated, &unaggregated);
    // target 1: one clique {1,2} plus extra 9; target 2: fallback {5,6}
    assert_eq!(num_cliques.len(), 3);
    let mut sets: Vec<Vec<u64>> = cs.iter().map(|c| sorted_ids(c)).collect();
    sets.sort();
    assert_eq!(sets, vec![vec![1, 2, 9], vec![5, 6]]);
}

#[test]
fn grouping_splits_by_target_in_order() {
    let atts = vec![att(1, &[1]), att(2, &[2]), att(1, &[3])];
    let groups = group_by_att_data(&atts);
    assert_eq!(groups.len(), 2);
    assert_eq!(groups[0].0, root(1));
    assert_eq!(groups[0].1.len(), 2);
    assert_eq!(sorted_ids(&groups[0].1[1].attesting_indices), vec![3]);
    assert_eq!(groups[1].0, root(2));
    assert_eq!(groups[1].1.len(), 1);
}

#[test]
fn reward_table_last_insert_wins() {
    let mut t = RewardTable::new();
    t.insert(key(1), 10);
    t.insert(key(2), 5);
    t.insert(key(1), 7);
    assert_eq!(t.reward_of(&key(1)), 7);
    assert_eq!(t.reward_of(&key(2)), 5);
    assert_eq!(t.reward_of(&key(3)), 0);
}

#[test]
fn reward_is_deduplicated_and_order_blind() {
    let mut t = RewardTable::new();
    t.insert(key(1), 10);
    t.insert(key(2), 5);
    t.insert(key(3), 1);
    let a = vec![vec![key(1), key(2)], vec![key(2), key(3)]];
    let b = vec![vec![key(2), key(3)], vec![key(1), key(2)]];
    let c = vec![
        vec![key(1), key(2)],
        vec![key(2), key(3)],
        vec![key(3), key(1)],
    ];
    assert_eq!(calculate_reward(&a, &t), 16);
    assert_eq!(calculate_reward(&b, &t), 16);
    assert_eq!(calculate_reward(&c, &t), 16);
}

#[test]
fn missing_voter_contributes_zero() {
    let mut t = RewardTable::new();
    t.insert(key(1), 10);
    let with_stranger = vec![vec![key(1), key(42)]];
    let without = vec![vec![key(1)]];
    assert_eq!(calculate_reward(&with_stranger, &t), 10);
    assert_eq!(calculate_reward(&without, &t), 10);
}

#[test]
fn distinct_voters_are_counted_once() {
    let lists = vec![vec![key(1), key(2)], vec![key(2), key(3)], vec![key(1)]];
    assert_eq!(count_distinct_voters(&lists), 3);
    let two_epochs = vec![vec![key(1), EpochAttesterID { epoch: 1, attester: 1 }]];
    assert_eq!(count_distinct_voters(&two_epochs), 2);
}

#[test]
fn loss_ratio_handles_zero_optimum() {
    assert_eq!(loss_ratio(0, 0), LossRatio::Undefined);
    assert_eq!(loss_ratio(0, 3), LossRatio::TotalLoss);
    assert_eq!(
        loss_ratio(20, 15),
        LossRatio::Ratio {
            baseline: 15,
            optimal: 20
        }
    );
}

#[test]
fn clique_stats_reports_min_max_sum() {
    let counts = vec![3usize, 1, 4, 1, 5];
    let (lo, hi, total) = clique_stats(&counts);
    assert_eq!(lo, 1);
    assert_eq!(hi, 5);
    assert_eq!(total, 14);
}

fn raw(r: u64, voters: &[u64], slot: Option<u64>) -> RawAttestation {
    RawAttestation {
        attesting_indices: voters.to_vec(),
        data_root: root(r),
        slot: slot.map(SlotID),
        index: 0,
    }
}

fn small_instance() -> Instance {
    let raw_instance = RawInstance {
        slot: SlotID(64),
        aggregated_attestations: vec![(SlotID(32), vec![raw(7, &[1, 2], None), raw(7, &[3], None)])],
        unaggregated_attestations: vec![(SlotID(32), vec![raw(7, &[4], None)])],
        reward_function: vec![(1, vec![(1, 10), (2, 5), (3, 1), (4, 2)])],
        greedy_solution: vec![raw(7, &[1, 2], Some(32))],
    };
    Instance::from(raw_instance)
}

#[test]
fn instance_conversion_qualifies_epochs() {
    let inst = small_instance();
    assert_eq!(inst.slot, SlotID(64));
    assert_eq!(inst.aggregated_attestations.len(), 2);
    // slot 32 -> epoch 1
    assert_eq!(
        inst.aggregated_attestations[0].attesting_indices,
        vec![
            EpochAttesterID {
                epoch: 1,
                attester: 1
            },
            EpochAttesterID {
                epoch: 1,
                attester: 2
            }
        ]
    );
    assert_eq!(inst.unaggregated_attestations.len(), 1);
    assert_eq!(inst.attestation_data, vec![root(7)]);
    assert_eq!(
        inst.reward_function.reward_of(&EpochAttesterID {
            epoch: 1,
            attester: 2
        }),
        5
    );
    assert_eq!(inst.reward_function.reward_of(&key(2)), 0);
    assert_eq!(inst.greedy_solution.len(), 1);
    assert_eq!(
        inst.greedy_solution[0],
        vec![
            EpochAttesterID {
                epoch: 1,
                attester: 1
            },
            EpochAttesterID {
                epoch: 1,
                attester: 2
            }
        ]
    );
}

#[test]
fn unique_roots_span_both_collections() {
    let inst = small_instance();
    assert_eq!(n_unique_roots(&inst), 1);
    let raw_instance = RawInstance {
        slot: SlotID(0),
        aggregated_attestations: vec![(SlotID(0), vec![raw(1, &[1], None)])],
        unaggregated_attestations: vec![(SlotID(0), vec![raw(2, &[2], None), raw(1, &[3], None)])],
        reward_function: vec![],
        greedy_solution: vec![],
    };
    assert_eq!(n_unique_roots(&Instance::from(raw_instance)), 2);
}

#[test]
fn cap_is_configurable() {
    let inst = small_instance();
    let (wmc, _, _, _) = build_coverage_problem_with_cap(&inst, 3);
    assert_eq!(wmc.k, 3);
}

#[test]
fn reindexing_round_trips_candidate_sets() {
    let inst = small_instance();
    let (wmc, cliqued, num_cliques, new_to_old) = build_coverage_problem(&inst);
    assert_eq!(wmc.k, 128);
    assert_eq!(num_cliques, vec![1, 1]);
    // the one aggregated target yields one clique {1,2,3} plus the extra 4
    assert_eq!(cliqued.len(), 1);
    assert_eq!(sorted_ids(&cliqued[0]), vec![1, 2, 3, 4]);
    assert_eq!(new_to_old.len(), 4);
    assert_eq!(wmc.weights, vec![10, 5, 1, 2]);
    let back = unreindex(&wmc.sets, &new_to_old);
    assert_eq!(back, cliqued);
    // selecting the single candidate covers every voter
    let chosen = select_candidates(&cliqued, &vec![0]);
    assert_eq!(calculate_reward(&chosen, &inst.reward_function), 18);
    let baseline = calculate_reward(&inst.greedy_solution, &inst.reward_function);
    assert_eq!(baseline, 15);
    assert_eq!(
        loss_ratio(18, baseline),
        LossRatio::Ratio {
            baseline: 15,
            optimal: 18
        }
    );
}
