use stamp_search::coeffs::CoefficientState;
use stamp_search::weights::WeightState;
use stamp_search::coverage::coverage_length;
use stamp_search::search::brute_force_gadgets;
use stamp_search::search::combine;
use stamp_search::search::Results;

fn collect_coeffs(w: usize, omega: usize) -> Vec<Vec<isize>> {
    let mut st = CoefficientState::new(w, omega);
    let mut out = Vec::new();
    while let Some(v) = st.next() {
        out.push(v);
    }
    out
}

fn collect_weights(w: usize, cap: usize) -> Vec<Vec<usize>> {
    let mut st = WeightState::new(w, cap);
    let mut out = Vec::new();
    while let Some(v) = st.next() {
        out.push(v);
    }
    out
}

/// Number of integer points in the `w`-dimensional L1 ball of radius `omega`,
/// counted directly as the oracle.
fn ball_count(w: usize, omega: isize) -> usize {
    if w == 0 {
        1
    } else {
        let mut total = 0;
        for x in -omega..=omega {
            total += ball_count(w - 1, omega - x.abs());
        }
        total
    }
}

#[test]
fn coefficients_start_at_zero() {
    let mut st = CoefficientState::new(3, 2);
    assert_eq!(st.next(), Some(vec![0isize, 0, 0]));
}

#[test]
fn coefficients_stay_within_budget() {
    for omega in 1..4usize {
        for w in 1..4usize {
            for v in collect_coeffs(w, omega) {
                let cost: usize = v.iter().map(|x| x.unsigned_abs()).sum();
                assert!(cost <= omega);
                assert_eq!(v.len(), w);
            }
        }
    }
}

#[test]
fn coefficients_have_no_duplicates_and_exact_count() {
    for omega in 1..4usize {
        for w in 1..4usize {
            let all = collect_coeffs(w, omega);
            let mut seen = all.clone();
            seen.sort();
            seen.dedup();
            assert_eq!(seen.len(), all.len());
            assert_eq!(all.len(), ball_count(w, omega as isize));
        }
    }
}

#[test]
fn coefficients_exact_sequence_small() {
    let all = collect_coeffs(2, 1);
    assert_eq!(
        all,
        vec![
            vec![0isize, 0],
            vec![-1, 0],
            vec![1, 0],
            vec![0, -1],
            vec![0, 1],
        ]
    );
}

#[test]
fn weights_start_minimal_and_increase() {
    let all = collect_weights(2, 4);
    assert_eq!(all, vec![vec![1usize, 2], vec![1, 3], vec![2, 3]]);
}

#[test]
fn weights_count_matches_binomial() {
    // Strictly increasing triples from {1, ..., 5}: C(5, 3) = 10.
    let all = collect_weights(3, 6);
    assert_eq!(all.len(), 10);
    for v in &all {
        assert!(v[0] >= 1);
        assert!(v[0] < v[1] && v[1] < v[2]);
        assert!(v[2] < 6);
    }
    let mut sorted = all.clone();
    sorted.dedup();
    assert_eq!(sorted.len(), 10);
}

#[test]
fn weights_empty_when_cap_too_small() {
    let mut st = WeightState::new(3, 3);
    assert_eq!(st.next(), None);
}

#[test]
fn coverage_single_unit_denomination() {
    // One denomination of value 1 under budget 3 covers exactly [0, 3].
    assert_eq!(coverage_length(&vec![1], 3), 3);
}

#[test]
fn coverage_single_larger_denomination_is_zero() {
    // A lone denomination above 1 cannot represent 1.
    assert_eq!(coverage_length(&vec![2], 3), 0);
    assert_eq!(coverage_length(&vec![3], 2), 0);
}

#[test]
fn coverage_pair_with_unit_budget() {
    // {1, 2} under budget 1 reaches 0, 1, 2 and misses 3.
    assert_eq!(coverage_length(&vec![1, 2], 1), 2);
    // {1, 3} misses 2; {2, 3} misses 1.
    assert_eq!(coverage_length(&vec![1, 3], 1), 1);
    assert_eq!(coverage_length(&vec![2, 3], 1), 0);
}

#[test]
fn coverage_monotonic_in_budget() {
    for ws in [vec![1usize, 2], vec![1, 3], vec![2, 5], vec![1, 2, 5]] {
        let mut last = 0;
        for omega in 1..5usize {
            let ell = coverage_length(&ws, omega);
            assert!(ell >= last);
            last = ell;
        }
    }
}

#[test]
fn combine_prefers_strictly_longer() {
    let a = Results { length: 3, weights: vec![vec![1, 2]] };
    let b = Results { length: 2, weights: vec![vec![1, 3]] };
    let r = combine(a, b);
    assert_eq!(r.length, 3);
    assert_eq!(r.weights, vec![vec![1, 2]]);
}

#[test]
fn combine_joins_ties() {
    let a = Results { length: 2, weights: vec![vec![1, 2]] };
    let b = Results { length: 2, weights: vec![vec![1, 3]] };
    let r = combine(a, b);
    assert_eq!(r.length, 2);
    assert_eq!(r.weights, vec![vec![1, 2], vec![1, 3]]);
}

#[test]
fn combine_order_insensitive_as_sets() {
    let mk = |l: usize, ws: Vec<Vec<usize>>| Results { length: l, weights: ws };
    let r1 = combine(
        mk(2, vec![vec![1, 2]]),
        combine(mk(2, vec![vec![1, 3]]), mk(1, vec![vec![2, 3]])),
    );
    let r2 = combine(
        combine(mk(1, vec![vec![2, 3]]), mk(2, vec![vec![1, 3]])),
        mk(2, vec![vec![1, 2]]),
    );
    assert_eq!(r1.length, r2.length);
    let mut w1 = r1.weights;
    let mut w2 = r2.weights;
    w1.sort();
    w2.sort();
    assert_eq!(w1, w2);
}

#[test]
fn combine_with_empty_accumulator() {
    let acc = Results::empty();
    let cand = Results { length: 0, weights: vec![vec![5]] };
    let r = combine(acc, cand);
    assert_eq!(r.length, 0);
    assert_eq!(r.weights, vec![vec![5]]);
}

#[test]
fn search_width_one_budget_three() {
    // The only candidate below the cap is {1}, covering [0, 3].
    let r = brute_force_gadgets(1, 3);
    assert_eq!(r.length, 3);
    assert_eq!(r.weights, vec![vec![1]]);
}

#[test]
fn search_width_two_budget_one() {
    // {1, 2} covers [0, 2]; no other pair below the cap does better.
    let r = brute_force_gadgets(2, 1);
    assert_eq!(r.length, 2);
    assert_eq!(r.weights, vec![vec![1, 2]]);
}

#[test]
fn search_is_idempotent() {
    for (w, omega) in [(1usize, 3usize), (2, 1), (2, 2)] {
        let r1 = brute_force_gadgets(w, omega);
        let r2 = brute_force_gadgets(w, omega);
        assert_eq!(r1.length, r2.length);
        let mut w1 = r1.weights;
        let mut w2 = r2.weights;
        w1.sort();
        w2.sort();
        assert_eq!(w1, w2);
    }
}

#[test]
fn search_results_are_achievers() {
    let r = brute_force_gadgets(2, 2);
    assert!(!r.weights.is_empty());
    for ws in &r.weights {
        assert_eq!(coverage_length(ws, 2), r.length);
    }
}
