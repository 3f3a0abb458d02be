//! Emission and transition scores.
//!
//! Scores are negative log-likelihoods in integer form. With the Gaussian
//! emission density of scale `sigma` and the exponential transition density
//! of scale `beta`, the negative log-likelihood of a path is, up to terms
//! that every path of the same length shares,
//! `sum(d_e^2) / (2 sigma^2) + sum(d_t) / beta`. Multiplying by the positive
//! constant `2 sigma^2 beta` keeps the order between paths and leaves
//! integers: an emission at projection distance `d_e` scores
//! `beta * d_e^2`, a transition with distance factor `d_t` scores
//! `2 sigma^2 * d_t`. A lower score is a higher probability; an impossible
//! transition (probability zero) is `None`.
use vstd::prelude::*;
use crate::model::{Candidate, MatchInput};

verus! {

/// Every score of a single emission or transition stays below this bound.
pub const SCORE_BOUND: u128 = 0x10_0000_0000_0000_0000_0000_0000;

/// Absolute difference between the route distance separating two projections
/// and the great-circle distance separating the two observations.
pub open spec fn discrepancy(route: int, gap: int) -> int {
    if route >= gap { route - gap } else { gap - route }
}

/// Scaled negative log of the emission density at projection distance `d`.
pub open spec fn emission_score(d: int, beta: int) -> int {
    beta * d * d
}

/// Scaled negative log of the transition density for a route distance and a
/// great-circle gap.
pub open spec fn transition_score(route: int, gap: int, sigma: int) -> int {
    2 * sigma * sigma * discrepancy(route, gap)
}

/// The transition's distance factor. Negative discrepancies (a route shorter
/// than the straight-line distance, which only projection asymmetry can cause)
/// are folded to their absolute value, so the exponential density is applied
/// to `|route - gap|`.
pub fn distance_factor(route: u32, gap: u32) -> (d: u32)
    ensures
        d as int == discrepancy(route as int, gap as int),
{
    if route >= gap { route - gap } else { gap - route }
}

/// Emission score of one candidate distance.
pub fn emission_of(d: u32, beta: u32) -> (r: u128)
    ensures
        r as int == emission_score(d as int, beta as int),
        r < SCORE_BOUND,
{
    proof {
        assert((beta as int) * (d as int) <= 0xffff_ffff * 0xffff_ffff) by (nonlinear_arith)
            requires beta <= 0xffff_ffff, d <= 0xffff_ffff;
    }
    let bd: u128 = (beta as u128) * (d as u128);
    proof {
        assert(bd as int * (d as int) <= 0xffff_ffff_ffff_ffff * 0xffff_ffff) by (nonlinear_arith)
            requires bd <= 0xffff_ffff * 0xffff_ffff, d <= 0xffff_ffff;
    }
    bd * (d as u128)
}

/// Transition score of one route distance across one gap.
pub fn transition_of(route: u32, gap: u32, sigma: u32) -> (r: u128)
    ensures
        r as int == transition_score(route as int, gap as int, sigma as int),
        r < SCORE_BOUND,
{
    let f = distance_factor(route, gap);
    proof {
        assert((sigma as int) * (sigma as int) <= 0xffff_ffff * 0xffff_ffff) by (nonlinear_arith)
            requires sigma <= 0xffff_ffff;
    }
    let ss: u128 = (sigma as u128) * (sigma as u128);
    proof {
        assert(2 * (ss as int) * (f as int) <= 2 * (0xffff_ffff_ffff_ffff * 0xffff_ffff)) by (nonlinear_arith)
            requires ss <= 0xffff_ffff * 0xffff_ffff, f <= 0xffff_ffff;
        assert(2 * (ss as int) * (f as int) == 2 * (sigma as int) * (sigma as int) * (f as int)) by (nonlinear_arith)
            requires ss as int == (sigma as int) * (sigma as int);
    }
    2 * ss * (f as u128)
}

/// A smaller projection distance never gives a worse emission score, that is
/// never a lower emission probability; with a positive scale, a strictly
/// smaller distance gives a strictly better score.
pub proof fn lemma_emission_monotone(d1: int, d2: int, beta: int)
    requires
        0 <= d1 <= d2,
        0 <= beta,
    ensures
        emission_score(d1, beta) <= emission_score(d2, beta),
        d1 < d2 && 0 < beta ==> emission_score(d1, beta) < emission_score(d2, beta),
{
    assert(beta * d1 * d1 <= beta * d2 * d2) by (nonlinear_arith)
        requires 0 <= d1 <= d2, 0 <= beta;
    if d1 < d2 && 0 < beta {
        assert(beta * d1 * d1 < beta * d2 * d2) by (nonlinear_arith)
            requires 0 <= d1 < d2, 0 < beta;
    }
}

/// Emission scores of every candidate of every trace point.
pub fn emission_probabilities(candidates: &Vec<Vec<Candidate>>, beta: u32) -> (r: Vec<Vec<u128>>)
    ensures
        r@.len() == candidates@.len(),
        forall|i: int| #![trigger r@[i]] 0 <= i < r@.len() ==> r@[i]@.len() == candidates@[i]@.len(),
        forall|i: int, j: int|
            0 <= i < r@.len() && 0 <= j < r@[i]@.len() ==> #[trigger] r@[i]@[j] as int
                == emission_score(candidates@[i]@[j].distance as int, beta as int) && r@[i]@[j] < SCORE_BOUND,
{
    let mut r: Vec<Vec<u128>> = Vec::new();
    let mut i: usize = 0;
    while i < candidates.len()
        invariant
            i <= candidates@.len(),
            r@.len() == i,
            forall|k: int| #![trigger r@[k]] 0 <= k < i ==> r@[k]@.len() == candidates@[k]@.len(),
            forall|k: int, j: int|
                0 <= k < i && 0 <= j < r@[k]@.len() ==> #[trigger] r@[k]@[j] as int
                    == emission_score(candidates@[k]@[j].distance as int, beta as int) && r@[k]@[j] < SCORE_BOUND,
        decreases candidates@.len() - i,
    {
        let row = &candidates[i];
        let mut out: Vec<u128> = Vec::new();
        let mut j: usize = 0;
        while j < row.len()
            invariant
                j <= row@.len(),
                row == candidates@[i as int],
                out@.len() == j,
                forall|m: int| 0 <= m < j ==> #[trigger] out@[m] as int
                    == emission_score(row@[m].distance as int, beta as int) && out@[m] < SCORE_BOUND,
            decreases row@.len() - j,
        {
            out.push(emission_of(row[j].distance, beta));
            j = j + 1;
        }
        r.push(out);
        i = i + 1;
    }
    r
}

/// Start scores: those of the first trace point's emissions, with no
/// transition applied.
pub fn start_probabilities(emission: &Vec<Vec<u128>>) -> (r: Vec<u128>)
    requires
        emission@.len() > 0,
    ensures
        r@ == emission@[0]@,
{
    emission[0].clone()
}

/// Transition scores between every candidate of a point and every candidate
/// of the next point; `None` where the road network has no route.
pub fn transition_probabilities(input: &MatchInput, sigma: u32) -> (r: Vec<Vec<Vec<Option<u128>>>>)
    requires
        input.wf(),
    ensures
        r@.len() == input.routes@.len(),
        forall|i: int| #![trigger r@[i]] 0 <= i < r@.len() ==> r@[i]@.len() == input.routes@[i]@.len(),
        forall|i: int, a: int|
            #![trigger r@[i]@[a]]
            0 <= i < r@.len() && 0 <= a < r@[i]@.len() ==> r@[i]@[a]@.len() == input.routes@[i]@[a]@.len(),
        forall|i: int, a: int, b: int|
            0 <= i < r@.len() && 0 <= a < r@[i]@.len() && 0 <= b < r@[i]@[a]@.len() ==>
                transition_entry(#[trigger] r@[i]@[a]@[b], input.routes@[i]@[a]@[b], input.gaps@[i], sigma),
{
    let mut r: Vec<Vec<Vec<Option<u128>>>> = Vec::new();
    let mut i: usize = 0;
    while i < input.routes.len()
        invariant
            input.wf(),
            i <= input.routes@.len(),
            r@.len() == i,
            forall|k: int| #![trigger r@[k]] 0 <= k < i ==> r@[k]@.len() == input.routes@[k]@.len(),
            forall|k: int, a: int|
                #![trigger r@[k]@[a]]
                0 <= k < i && 0 <= a < r@[k]@.len() ==> r@[k]@[a]@.len() == input.routes@[k]@[a]@.len(),
            forall|k: int, a: int, b: int|
                0 <= k < i && 0 <= a < r@[k]@.len() && 0 <= b < r@[k]@[a]@.len() ==>
                    transition_entry(#[trigger] r@[k]@[a]@[b], input.routes@[k]@[a]@[b], input.gaps@[k], sigma),
        decreases input.routes@.len() - i,
    {
        let gap = input.gaps[i];
        let block = &input.routes[i];
        let mut rows: Vec<Vec<Option<u128>>> = Vec::new();
        let mut a: usize = 0;
        while a < block.len()
            invariant
                a <= block@.len(),
                block == input.routes@[i as int],
                rows@.len() == a,
                forall|m: int| #![trigger rows@[m]] 0 <= m < a ==> rows@[m]@.len() == block@[m]@.len(),
                forall|m: int, b: int|
                    0 <= m < a && 0 <= b < rows@[m]@.len() ==>
                        transition_entry(#[trigger] rows@[m]@[b], block@[m]@[b], gap, sigma),
            decreases block@.len() - a,
        {
            let row = &block[a];
            let mut out: Vec<Option<u128>> = Vec::new();
            let mut b: usize = 0;
            while b < row.len()
                invariant
                    b <= row@.len(),
                    row == block@[a as int],
                    out@.len() == b,
                    forall|m: int| 0 <= m < b ==> transition_entry(#[trigger] out@[m], row@[m], gap, sigma),
                decreases row@.len() - b,
            {
                let e = match row[b] {
                    Some(route) => Some(transition_of(route, gap, sigma)),
                    None => None,
                };
                out.push(e);
                b = b + 1;
            }
            rows.push(out);
            a = a + 1;
        }
        r.push(rows);
        i = i + 1;
    }
    r
}

/// A transition score entry agrees with the route distance it was made from.
pub open spec fn transition_entry(score: Option<u128>, route: Option<u32>, gap: u32, sigma: u32) -> bool {
    match route {
        None => score.is_none(),
        Some(d) => score is Some && score.unwrap() as int == transition_score(d as int, gap as int, sigma as int)
            && score.unwrap() < SCORE_BOUND,
    }
}

} // verus!
