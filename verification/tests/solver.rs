//! Scenarios that run the coverage problem through the integer-programming
//! backend and hold the returned selection to the library's verified checks.

use good_lp::Expression;
use good_lp::ProblemVariables;
use good_lp::Solution;
use good_lp::SolverModel;

use sigmaprime::mip_approach::loss_ratio;
use sigmaprime::mip_approach::LossRatio;
use sigmaprime::WeightedMaximumCoverage;

/// Formulate the coverage problem as an integer program and return the
/// indices of the selected sets, as the packing pipeline does.
fn solve(p: &WeightedMaximumCoverage) -> Vec<usize> {
    let mut vars = ProblemVariables::new();
    let xs = vars.add_vector(good_lp::variable().binary(), p.sets.len());
    let ys = vars.add_vector(good_lp::variable().min(0.0).max(1.0), p.weights.len());
    let mut objective = Expression::default();
    for (j, w) in p.weights.iter().enumerate() {
        objective += ys[j] * (*w as f64);
    }
    let mut problem = vars.maximise(objective).using(good_lp::default_solver);
    let mut cap = Expression::default();
    for x in &xs {
        cap += *x;
    }
    problem = problem.with(cap.leq(p.k as f64));
    let sets_with = p.sets_containing();
    for j in 0..p.weights.len() {
        let mut cover = Expression::default();
        for &i in &sets_with[j] {
            cover += xs[i];
        }
        problem = problem.with(cover.geq(ys[j]));
    }
    let solution = problem.solve().unwrap();
    let mut chosen = Vec::new();
    for (i, x) in xs.iter().enumerate() {
        if solution.value(*x) > 0.0 {
            chosen.push(i);
        }
    }
    chosen
}

#[test]
fn solver_prefers_heavier_set() {
    // weights 10, 5, 1 over elements 0, 1, 2; sets {0,1} and {2}; cap 1
    let p = WeightedMaximumCoverage {
        sets: vec![vec![0, 1], vec![2]],
        weights: vec![10, 5, 1],
        k: 1,
    };
    let chosen = solve(&p);
    assert!(p.check_selection(&chosen));
    assert_eq!(chosen, vec![0]);
    assert_eq!(p.selection_objective(&chosen), 15);
}

#[test]
fn zero_cap_selects_nothing() {
    let p = WeightedMaximumCoverage {
        sets: vec![vec![0, 1], vec![2]],
        weights: vec![10, 5, 1],
        k: 0,
    };
    let chosen = solve(&p);
    assert!(p.check_selection(&chosen));
    assert!(chosen.is_empty());
    assert_eq!(p.selection_objective(&chosen), 0);
    // a degenerate optimum admits no loss ratio
    assert_eq!(loss_ratio(0, 0), LossRatio::Undefined);
    assert_eq!(loss_ratio(0, 7), LossRatio::TotalLoss);
}

#[test]
fn selection_respects_cap_and_objective() {
    let p = WeightedMaximumCoverage {
        sets: vec![
            vec![0, 1, 2],
            vec![0, 3],
            vec![1, 2],
            vec![3, 2],
            vec![0, 4],
            vec![2, 3, 0],
        ],
        weights: vec![12, 11, 3, 2, 8],
        k: 2,
    };
    let chosen = solve(&p);
    assert!(p.check_selection(&chosen));
    assert!(chosen.len() <= 2);
    // covering {0,1,2} and {0,4} reaches the full weight but one of 3
    assert_eq!(p.selection_objective(&chosen), 34);
}

#[test]
fn zero_weight_element_changes_no_objective() {
    let heavy = WeightedMaximumCoverage {
        sets: vec![vec![0], vec![1]],
        weights: vec![10, 0],
        k: 2,
    };
    let chosen = solve(&heavy);
    assert!(heavy.check_selection(&chosen));
    assert_eq!(heavy.selection_objective(&chosen), 10);
    // the zero-weight element is free to be covered or not; the value is fixed
    assert_eq!(heavy.selection_objective(&vec![0]), 10);
    assert_eq!(heavy.selection_objective(&vec![0, 1]), 10);
}
