use map_matching::matcher::{candidates_within, map_match};
use map_matching::model::{
    Candidate, Config, Coord, MatchError, MatchInput, StepPolicy, DEFAULT_SEARCH_RADIUS,
};
use map_matching::route::assemble_route;

fn cand(segment: u64, distance: u32, lat: i64) -> Candidate {
    Candidate { segment, projected: Coord { lat, lon: 0 }, distance }
}

fn fail_fast() -> Config {
    let mut c = Config::new();
    c.unreachable_step_policy = StepPolicy::FailFast;
    c
}

/// Three points exactly on segment 7, with segment 9 five metres away.
fn straight_trace() -> MatchInput {
    let step = |lat: i64| vec![cand(7, 0, lat), cand(9, 5_000, lat)];
    let block = vec![vec![Some(10_000), Some(15_000)], vec![Some(15_000), Some(10_000)]];
    MatchInput {
        candidates: vec![step(0), step(100), step(200)],
        gaps: vec![10_000, 10_000],
        routes: vec![block.clone(), block],
    }
}

/// Two parallel segments 1 m apart: segment 1 is continuous, segment 2 is
/// nearer to every point but no route enters or leaves it.
fn parallel_trace() -> MatchInput {
    let step = |lat: i64| vec![cand(1, 600, lat), cand(2, 400, lat)];
    let block = vec![vec![Some(10_000), None], vec![None, None]];
    MatchInput {
        candidates: vec![step(0), step(100), step(200)],
        gaps: vec![10_000, 10_000],
        routes: vec![block.clone(), block],
    }
}

fn segments(r: &[Candidate]) -> Vec<u64> {
    r.iter().map(|c| c.segment).collect()
}

#[test]
fn default_config() {
    let c = Config::new();
    assert_eq!(c.search_radius, DEFAULT_SEARCH_RADIUS);
    assert_eq!(c.search_radius, 200_000);
    assert_eq!(c.sigma_override, None);
    assert_eq!(c.beta_override, None);
    assert_eq!(c.unreachable_step_policy, StepPolicy::RestartChain);
}

#[test]
fn empty_trace_is_an_error() {
    let input = MatchInput { candidates: vec![], gaps: vec![], routes: vec![] };
    assert_eq!(map_match(&input, &Config::new()), Err(MatchError::EmptyTrace));
}

#[test]
fn point_without_candidates_is_an_error() {
    let input = MatchInput {
        candidates: vec![vec![cand(1, 0, 0)], vec![], vec![cand(1, 0, 0)]],
        gaps: vec![10, 10],
        routes: vec![vec![vec![]], vec![]],
    };
    assert_eq!(map_match(&input, &Config::new()), Err(MatchError::NoCandidates(1)));
}

#[test]
fn single_point_single_candidate() {
    let c = cand(42, 1_234, 5);
    let input = MatchInput { candidates: vec![vec![c]], gaps: vec![], routes: vec![] };
    assert_eq!(map_match(&input, &Config::new()), Ok(vec![c]));
    assert_eq!(map_match(&input, &fail_fast()), Ok(vec![c]));
}

#[test]
fn single_point_takes_nearest_candidate() {
    let input = MatchInput {
        candidates: vec![vec![cand(1, 900, 0), cand(2, 300, 0), cand(3, 300, 0)]],
        gaps: vec![],
        routes: vec![],
    };
    assert_eq!(segments(&map_match(&input, &Config::new()).unwrap()), vec![2]);
}

#[test]
fn straight_trace_on_one_segment() {
    let r = map_match(&straight_trace(), &Config::new()).unwrap();
    assert_eq!(segments(&r), vec![7, 7, 7]);
    assert_eq!(r[1].projected, Coord { lat: 100, lon: 0 });
}

#[test]
fn continuous_segment_wins_over_nearer_disconnected_one() {
    let r = map_match(&parallel_trace(), &Config::new()).unwrap();
    assert_eq!(segments(&r), vec![1, 1, 1]);
    let r = map_match(&parallel_trace(), &fail_fast()).unwrap();
    assert_eq!(segments(&r), vec![1, 1, 1]);
}

#[test]
fn matching_is_deterministic() {
    let a = map_match(&parallel_trace(), &Config::new());
    let b = map_match(&parallel_trace(), &Config::new());
    assert_eq!(a, b);
    assert_eq!(map_match(&straight_trace(), &Config::new()), map_match(&straight_trace(), &Config::new()));
}

#[test]
fn disconnected_step_fails_fast() {
    let step = |lat: i64| vec![cand(1, 100, lat), cand(2, 50, lat)];
    let connected = vec![vec![Some(10_000), Some(10_000)], vec![Some(10_000), Some(10_000)]];
    let cut = vec![vec![None, None], vec![None, None]];
    let input = MatchInput {
        candidates: vec![step(0), step(1), step(2)],
        gaps: vec![10_000, 10_000],
        routes: vec![connected, cut],
    };
    assert_eq!(map_match(&input, &fail_fast()), Err(MatchError::DisconnectedChain(2)));
    // Restarting the chain still gives one candidate per point.
    let r = map_match(&input, &Config::new()).unwrap();
    assert_eq!(segments(&r), vec![2, 2, 2]);
}

#[test]
fn restart_chooses_each_chain_on_its_own() {
    // Chain 0..2 prefers segment 1 because only 1 -> 1 is routable; the
    // chain restarted at step 2 takes its nearest candidate.
    let input = MatchInput {
        candidates: vec![
            vec![cand(1, 300, 0), cand(2, 100, 0)],
            vec![cand(1, 300, 1), cand(2, 100, 1)],
            vec![cand(3, 800, 2), cand(4, 200, 2)],
        ],
        gaps: vec![10_000, 10_000],
        routes: vec![
            vec![vec![Some(10_000), None], vec![None, None]],
            vec![vec![None, None], vec![None, None]],
        ],
    };
    let r = map_match(&input, &Config::new()).unwrap();
    assert_eq!(segments(&r), vec![1, 1, 4]);
    assert_eq!(map_match(&input, &fail_fast()), Err(MatchError::DisconnectedChain(2)));
}

#[test]
fn overrides_change_the_trade_off() {
    // Segment 2 is nearer; segment 1 follows the straight-line distance.
    let step = |lat: i64| vec![cand(1, 2_000, lat), cand(2, 0, lat)];
    let block = vec![vec![Some(10_000), Some(10_000)], vec![Some(10_000), Some(30_000)]];
    let input = MatchInput {
        candidates: vec![step(0), step(1)],
        gaps: vec![10_000],
        routes: vec![block],
    };
    // Scores: emission beta * d^2, transition 2 * sigma^2 * |route - gap|.
    // sigma 1, beta 1: 2 -> 2 costs 40_000 and 2 -> 1 costs 4_000_000.
    let mut c = Config::new();
    c.sigma_override = Some(1);
    c.beta_override = Some(1);
    assert_eq!(segments(&map_match(&input, &c).unwrap()), vec![2, 2]);
    // sigma 100: 2 -> 2 costs 400_000_000, 2 -> 1 costs 4_000_000.
    c.sigma_override = Some(100);
    assert_eq!(segments(&map_match(&input, &c).unwrap()), vec![2, 1]);
}

#[test]
fn radius_filter_keeps_order() {
    let found = vec![cand(1, 250_000, 0), cand(2, 200_000, 0), cand(3, 5, 0), cand(4, 200_001, 0)];
    let kept = candidates_within(&found, DEFAULT_SEARCH_RADIUS);
    assert_eq!(segments(&kept), vec![2, 3]);
    assert!(candidates_within(&found, 0).is_empty());
}

#[test]
fn route_assembly_concatenates_legs() {
    let chosen = vec![cand(1, 0, 0), cand(2, 0, 10), cand(2, 0, 20)];
    let p = |lat: i64| Coord { lat, lon: 0 };
    let legs = vec![Some(vec![p(0), p(5), p(10)]), None];
    let route = assemble_route(&chosen, &legs).unwrap();
    assert_eq!(route, vec![p(0), p(5), p(10), p(10)]);
}

#[test]
fn route_assembly_reports_unreachable_pair() {
    let chosen = vec![cand(1, 0, 0), cand(2, 0, 10), cand(3, 0, 20)];
    let p = |lat: i64| Coord { lat, lon: 0 };
    let legs = vec![Some(vec![p(0), p(10)]), None];
    assert_eq!(assemble_route(&chosen, &legs), Err(MatchError::UnreachableRoute(2, 3)));
}

#[test]
fn route_of_single_point_is_empty() {
    let chosen = vec![cand(1, 0, 0)];
    assert_eq!(assemble_route(&chosen, &vec![]), Ok(vec![]));
}
