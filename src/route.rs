//! Stitching the chosen candidates into one geometric route.
use vstd::prelude::*;
use crate::model::{Candidate, Coord, MatchError};

verus! {

/// The sub-path from chosen candidate `k` to chosen candidate `k + 1`: the
/// single projected point where both lie on the same segment, otherwise the
/// path that the road network gave (`None`: no route).
pub open spec fn leg(chosen: Seq<Candidate>, legs: Seq<Option<Vec<Coord>>>, k: int) -> Option<Seq<Coord>> {
    if chosen[k].segment == chosen[k + 1].segment {
        Some(seq![chosen[k].projected])
    } else {
        match legs[k] {
            Some(p) => Some(p@),
            None => None,
        }
    }
}

/// The concatenation of the first `k` sub-paths, or `None` if one of them
/// has no route.
pub open spec fn route_upto(chosen: Seq<Candidate>, legs: Seq<Option<Vec<Coord>>>, k: int) -> Option<Seq<Coord>>
    decreases k,
{
    if k <= 0 {
        Some(Seq::empty())
    } else {
        match route_upto(chosen, legs, k - 1) {
            None => None,
            Some(r) => match leg(chosen, legs, k - 1) {
                None => None,
                Some(p) => Some(r + p),
            },
        }
    }
}

pub proof fn lemma_route_upto(chosen: Seq<Candidate>, legs: Seq<Option<Vec<Coord>>>, k: int)
    requires
        0 <= k,
    ensures
        route_upto(chosen, legs, k) is Some <==> forall|m: int| 0 <= m < k ==> (#[trigger] leg(chosen, legs, m)) is Some,
    decreases k,
{
    if k > 0 {
        lemma_route_upto(chosen, legs, k - 1);
    }
}

/// Joins the chosen candidates of consecutive trace points. `legs[k]` is the
/// road network's path from the projection of `chosen[k]` to that of
/// `chosen[k + 1]`, `None` where it has none. The route is the concatenation
/// of the sub-paths in order; the first missing one is an `UnreachableRoute`
/// naming its two segments.
pub fn assemble_route(chosen: &Vec<Candidate>, legs: &Vec<Option<Vec<Coord>>>) -> (r: Result<Vec<Coord>, MatchError>)
    requires
        chosen@.len() == legs@.len() + 1,
    ensures
        match r {
            Ok(route) => route_upto(chosen@, legs@, legs@.len() as int) == Some(route@),
            Err(e) => route_upto(chosen@, legs@, legs@.len() as int) is None && exists|k: int|
                0 <= k < legs@.len() && route_upto(chosen@, legs@, k) is Some && leg(chosen@, legs@, k) is None
                    && e == MatchError::UnreachableRoute(chosen@[k].segment, chosen@[k + 1].segment),
        },
{
    let mut route: Vec<Coord> = Vec::new();
    let mut k: usize = 0;
    while k < legs.len()
        invariant
            chosen@.len() == legs@.len() + 1,
            k <= legs@.len(),
            route_upto(chosen@, legs@, k as int) == Some(route@),
        decreases legs@.len() - k,
    {
        let a = chosen[k];
        let b = chosen[k + 1];
        if a.segment == b.segment {
            route.push(a.projected);
        } else {
            match &legs[k] {
                Some(p) => {
                    let mut q: usize = 0;
                    let ghost before = route@;
                    while q < p.len()
                        invariant
                            q <= p@.len(),
                            route@ == before + p@.take(q as int),
                        decreases p@.len() - q,
                    {
                        route.push(p[q]);
                        q = q + 1;
                        assert(route@ == before + p@.take(q as int));
                    }
                    assert(p@.take(p@.len() as int) == p@);
                },
                None => {
                    proof {
                        lemma_route_upto(chosen@, legs@, legs@.len() as int);
                        assert(leg(chosen@, legs@, k as int) is None);
                    }
                    return Err(MatchError::UnreachableRoute(a.segment, b.segment));
                },
            }
        }
        assert(route_upto(chosen@, legs@, k + 1) == Some(route@));
        k = k + 1;
    }
    Ok(route)
}

} // verus!
