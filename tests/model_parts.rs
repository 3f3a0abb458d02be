use map_matching::estimate::{estimate_beta, estimate_sigma, median};
use map_matching::model::{Candidate, Coord, MatchError, MatchInput};
use map_matching::probability::{
    distance_factor, emission_of, emission_probabilities, start_probabilities, transition_of,
    transition_probabilities,
};
use map_matching::viterbi::decode_chain;

fn cand(segment: u64, distance: u32) -> Candidate {
    Candidate { segment, projected: Coord { lat: 0, lon: 0 }, distance }
}

#[test]
fn distance_factor_is_absolute() {
    assert_eq!(distance_factor(150, 100), 50);
    assert_eq!(distance_factor(100, 150), 50);
    assert_eq!(distance_factor(7, 7), 0);
}

#[test]
fn emission_scores() {
    assert_eq!(emission_of(3, 2), 18);
    assert_eq!(emission_of(0, 1_000), 0);
    assert_eq!(emission_of(u32::MAX, u32::MAX), (u32::MAX as u128).pow(3));
}

#[test]
fn emission_probability_decreases_with_distance() {
    let beta = 3_000;
    let mut last = emission_of(0, beta);
    for d in [1u32, 10, 500, 1_000, 200_000] {
        let s = emission_of(d, beta);
        assert!(s > last);
        last = s;
    }
    let p = |d: u32| (-(emission_of(d, beta) as f64) / 1e12).exp();
    assert!(p(100) > p(200));
}

#[test]
fn transition_scores() {
    assert_eq!(transition_of(150, 100, 3), 900);
    assert_eq!(transition_of(100, 150, 3), 900);
    assert_eq!(transition_of(100, 100, 3), 0);
}

#[test]
fn emission_table_and_start() {
    let cs = vec![vec![cand(1, 1), cand(2, 2)], vec![cand(3, 3)]];
    let em = emission_probabilities(&cs, 10);
    assert_eq!(em, vec![vec![10, 40], vec![90]]);
    assert_eq!(start_probabilities(&em), vec![10, 40]);
}

#[test]
fn transition_table() {
    let input = MatchInput {
        candidates: vec![vec![cand(1, 0), cand(2, 0)], vec![cand(3, 0)]],
        gaps: vec![100],
        routes: vec![vec![vec![Some(130)], vec![None]]],
    };
    let t = transition_probabilities(&input, 2);
    assert_eq!(t, vec![vec![vec![Some(240)], vec![None]]]);
}

#[test]
fn median_values() {
    assert_eq!(median(&vec![5, 1, 3]), 3);
    assert_eq!(median(&vec![4, 1, 3, 2]), 2);
    assert_eq!(median(&vec![9]), 9);
    assert_eq!(median(&vec![2, 2, 7, 2]), 2);
    assert_eq!(median(&vec![7, 7, 1, 9, 9]), 7);
}

#[test]
fn sigma_estimate() {
    assert_eq!(estimate_sigma(&vec![]), Err(MatchError::DegenerateParameters));
    assert_eq!(estimate_sigma(&vec![1_000]), Err(MatchError::DegenerateParameters));
    assert_eq!(estimate_sigma(&vec![1_000, 3_000, 2_000]), Ok(2_965));
    assert_eq!(estimate_sigma(&vec![0, 0]), Ok(1));
}

#[test]
fn beta_estimate() {
    assert_eq!(estimate_beta(&vec![]), Err(MatchError::DegenerateParameters));
    assert_eq!(estimate_beta(&vec![693_147]), Ok(1_000_000));
    assert_eq!(estimate_beta(&vec![0]), Ok(1));
    assert_eq!(estimate_beta(&vec![u32::MAX, u32::MAX]), Ok(u32::MAX));
}

#[test]
fn decode_picks_lowest_total() {
    // Step 0: states cost 5 and 0; step 1: states cost 0 and 0.
    let em: Vec<Vec<u128>> = vec![vec![5, 0], vec![0, 0]];
    // 0 -> 0 costs 1, 1 -> 0 costs 10, 0 -> 1 costs 8, 1 -> 1 impossible.
    let tr = vec![vec![vec![Some(1), Some(8)], vec![Some(10), None]]];
    assert_eq!(decode_chain(&em, &tr, 0, 2), Ok(vec![0, 0]));
    assert_eq!(decode_chain(&em, &tr, 1, 2), Ok(vec![0]));
}

#[test]
fn decode_ties_go_to_lowest_index() {
    let em: Vec<Vec<u128>> = vec![vec![0, 0], vec![3, 3]];
    let tr = vec![vec![vec![Some(1), Some(1)], vec![Some(1), Some(1)]]];
    assert_eq!(decode_chain(&em, &tr, 0, 2), Ok(vec![0, 0]));
}

#[test]
fn decode_reports_first_dead_step() {
    let em: Vec<Vec<u128>> = vec![vec![0], vec![0], vec![0]];
    let tr = vec![vec![vec![Some(1)]], vec![vec![None]]];
    assert_eq!(decode_chain(&em, &tr, 0, 3), Err(2));
    assert_eq!(decode_chain(&em, &tr, 0, 2), Ok(vec![0, 0]));
}
