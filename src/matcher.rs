//! The end-to-end matching entry point.
use vstd::prelude::*;
use crate::estimate::{estimate_beta, estimate_sigma, median_of, scaled, BETA_DEN, BETA_NUM, SIGMA_DEN, SIGMA_NUM};
use crate::model::{Candidate, Config, MatchError, MatchInput, StepPolicy, DEFAULT_BETA, DEFAULT_SIGMA};
use crate::probability::{
    discrepancy, distance_factor, emission_probabilities, emission_score, transition_probabilities,
    transition_score, SCORE_BOUND,
};
use crate::viterbi::{
    best_of, decode_chain, decoded, layer, trace_back, em_view, first_dead, lemma_decoded, lemma_first_dead_prefix, lemma_first_dead_range,
    tables_wf, tr_view, MAX_STEPS,
};

verus! {

/// Candidate lists as sequences.
pub open spec fn cands_view(c: Seq<Vec<Candidate>>) -> Seq<Seq<Candidate>> {
    c.map_values(|r: Vec<Candidate>| r@)
}

/// Route distance tables as sequences.
pub open spec fn routes_view(r: Seq<Vec<Vec<Option<u32>>>>) -> Seq<Seq<Seq<Option<u32>>>> {
    r.map_values(|b: Vec<Vec<Option<u32>>>| b@.map_values(|x: Vec<Option<u32>>| x@))
}

/// Index of the nearest candidate among `c[0..k]`, the first one on ties.
pub open spec fn nearest(c: Seq<Candidate>, k: int) -> int
    decreases k,
{
    if k <= 1 {
        0
    } else {
        let b = nearest(c, k - 1);
        if c[k - 1].distance < c[b].distance { k - 1 } else { b }
    }
}

/// Index of a point's best candidate: the one nearest to it.
pub open spec fn best_index(c: Seq<Candidate>) -> int {
    nearest(c, c.len() as int)
}

/// The first point at or after `i` with no candidate, or the trace length.
pub open spec fn first_empty(cs: Seq<Seq<Candidate>>, i: int) -> int
    decreases cs.len() - i,
{
    if i >= cs.len() {
        cs.len() as int
    } else if cs[i].len() == 0 {
        i
    } else {
        first_empty(cs, i + 1)
    }
}

/// Projection distance of each point's best candidate.
pub open spec fn best_distances(cs: Seq<Seq<Candidate>>) -> Seq<u32> {
    Seq::new(cs.len(), |i: int| cs[i][best_index(cs[i])].distance)
}

/// Distance factors between the best candidates of the first `k` pairs of
/// consecutive points, skipping pairs that no route joins.
pub open spec fn factor_samples(cs: Seq<Seq<Candidate>>, gaps: Seq<u32>, routes: Seq<Seq<Seq<Option<u32>>>>, k: int) -> Seq<u32>
    decreases k,
{
    if k <= 0 {
        Seq::empty()
    } else {
        let s = factor_samples(cs, gaps, routes, k - 1);
        match routes[k - 1][best_index(cs[k - 1])][best_index(cs[k])] {
            Some(r) => s.push(discrepancy(r as int, gaps[k - 1] as int) as u32),
            None => s,
        }
    }
}

/// The noise scale in use.
pub open spec fn sigma_of(cs: Seq<Seq<Candidate>>, config: Config) -> u32 {
    match config.sigma_override {
        Some(s) => s,
        None => if cs.len() >= 2 {
            scaled(median_of(best_distances(cs)) as int, SIGMA_NUM as int, SIGMA_DEN as int) as u32
        } else {
            DEFAULT_SIGMA
        },
    }
}

/// The transition scale in use.
pub open spec fn beta_of(cs: Seq<Seq<Candidate>>, gaps: Seq<u32>, routes: Seq<Seq<Seq<Option<u32>>>>, config: Config) -> u32 {
    match config.beta_override {
        Some(b) => b,
        None => {
            let f = factor_samples(cs, gaps, routes, cs.len() - 1);
            if f.len() > 0 {
                scaled(median_of(f) as int, BETA_NUM as int, BETA_DEN as int) as u32
            } else {
                DEFAULT_BETA
            }
        },
    }
}

/// Emission scores of every candidate.
pub open spec fn emission_table(cs: Seq<Seq<Candidate>>, beta: u32) -> Seq<Seq<int>> {
    Seq::new(cs.len(), |i: int| Seq::new(cs[i].len(), |j: int| emission_score(cs[i][j].distance as int, beta as int)))
}

/// Transition scores between the candidates of consecutive points.
pub open spec fn transition_table(gaps: Seq<u32>, routes: Seq<Seq<Seq<Option<u32>>>>, sigma: u32) -> Seq<Seq<Seq<Option<int>>>> {
    Seq::new(
        routes.len(),
        |i: int|
            Seq::new(
                routes[i].len(),
                |a: int|
                    Seq::new(
                        routes[i][a].len(),
                        |b: int|
                            match routes[i][a][b] {
                                Some(r) => Some(transition_score(r as int, gaps[i] as int, sigma as int)),
                                None => None,
                            },
                    ),
            ),
    )
}

/// Decoded states of steps `lo..n`: one chain up to its first dead step,
/// after which the policy either restarts a chain there or fails with that
/// step.
pub open spec fn chains(em: Seq<Seq<int>>, tr: Seq<Seq<Seq<Option<int>>>>, lo: int, n: int, policy: StepPolicy) -> Result<Seq<int>, int>
    decreases n - lo,
{
    if lo >= n {
        Ok(Seq::empty())
    } else {
        let d = first_dead(em, tr, lo, lo + 1, n);
        if d <= lo || d >= n {
            Ok(decoded(em, tr, lo, n))
        } else if policy == StepPolicy::FailFast {
            Err(d)
        } else {
            match chains(em, tr, d, n, policy) {
                Ok(rest) => Ok(decoded(em, tr, lo, d) + rest),
                Err(e) => Err(e),
            }
        }
    }
}

/// What matching a trace gives: its chosen candidate at each point, or the
/// first error in the order empty trace, point without candidates, and
/// (under the fail-fast policy) disconnected step.
pub open spec fn match_spec(cs: Seq<Seq<Candidate>>, gaps: Seq<u32>, routes: Seq<Seq<Seq<Option<u32>>>>, config: Config) -> Result<Seq<Candidate>, MatchError> {
    let n = cs.len();
    if n == 0 {
        Err(MatchError::EmptyTrace)
    } else if first_empty(cs, 0) < n {
        Err(MatchError::NoCandidates(first_empty(cs, 0) as usize))
    } else {
        let em = emission_table(cs, beta_of(cs, gaps, routes, config));
        let tr = transition_table(gaps, routes, sigma_of(cs, config));
        match chains(em, tr, 0, n as int, config.unreachable_step_policy) {
            Ok(p) => Ok(Seq::new(n, |i: int| cs[i][p[i]])),
            Err(d) => Err(MatchError::DisconnectedChain(d as usize)),
        }
    }
}

/// An executable result agrees with a spec result.
pub open spec fn same_result(r: Result<Vec<Candidate>, MatchError>, s: Result<Seq<Candidate>, MatchError>) -> bool {
    match r {
        Ok(v) => s == Ok::<Seq<Candidate>, MatchError>(v@),
        Err(e) => s == Err::<Seq<Candidate>, MatchError>(e),
    }
}

/// Index of the nearest candidate of a point, the first one on ties.
fn nearest_index(c: &Vec<Candidate>) -> (r: usize)
    requires
        c@.len() > 0,
    ensures
        r as int == best_index(c@),
        r < c@.len(),
{
    let mut b: usize = 0;
    let mut k: usize = 1;
    while k < c.len()
        invariant
            1 <= k <= c@.len(),
            b as int == nearest(c@, k as int),
            b < k,
        decreases c@.len() - k,
    {
        if c[k].distance < c[b].distance {
            b = k;
        }
        k = k + 1;
    }
    b
}

/// The noise and transition scales for a trace whose points all have candidates.
fn model_scales(input: &MatchInput, config: &Config) -> (r: (u32, u32))
    requires
        input.wf(),
        input.candidates@.len() > 0,
        forall|i: int| 0 <= i < input.candidates@.len() ==> (#[trigger] input.candidates@[i])@.len() > 0,
    ensures
        r.0 == sigma_of(cands_view(input.candidates@), *config),
        r.1 == beta_of(cands_view(input.candidates@), input.gaps@, routes_view(input.routes@), *config),
{
    let ghost cs = cands_view(input.candidates@);
    let ghost rs = routes_view(input.routes@);
    let n = input.candidates.len();
    let mut near: Vec<usize> = Vec::new();
    let mut best: Vec<u32> = Vec::new();
    let mut i: usize = 0;
    while i < n
        invariant
            n == input.candidates@.len(),
            cs == cands_view(input.candidates@),
            forall|k: int| 0 <= k < n ==> (#[trigger] input.candidates@[k])@.len() > 0,
            i <= n,
            near@.len() == i,
            best@.len() == i,
            forall|k: int| 0 <= k < i ==> #[trigger] near@[k] as int == best_index(cs[k]) && near@[k] < cs[k].len(),
            forall|k: int| 0 <= k < i ==> #[trigger] best@[k] == cs[k][best_index(cs[k])].distance,
        decreases n - i,
    {
        let b = nearest_index(&input.candidates[i]);
        near.push(b);
        best.push(input.candidates[i][b].distance);
        i = i + 1;
    }
    assert(best@ =~= best_distances(cs));
    let sigma = match config.sigma_override {
        Some(s) => s,
        None => if n >= 2 {
            match estimate_sigma(&best) {
                Ok(s) => s,
                Err(_) => DEFAULT_SIGMA,
            }
        } else {
            DEFAULT_SIGMA
        },
    };
    let mut factors: Vec<u32> = Vec::new();
    let mut k: usize = 0;
    while k + 1 < n
        invariant
            input.wf(),
            n == input.candidates@.len(),
            cs == cands_view(input.candidates@),
            rs == routes_view(input.routes@),
            k < n,
            near@.len() == n,
            forall|q: int| 0 <= q < n ==> #[trigger] near@[q] as int == best_index(cs[q]) && near@[q] < cs[q].len(),
            factors@ == factor_samples(cs, input.gaps@, rs, k as int),
        decreases n - k,
    {
        assert(input.routes@[k as int]@.len() == input.candidates@[k as int]@.len());
        assert(input.routes@[k as int]@[near@[k as int] as int]@.len() == input.candidates@[k + 1]@.len());
        match input.routes[k][near[k]][near[k + 1]] {
            Some(route) => {
                factors.push(distance_factor(route, input.gaps[k]));
            },
            None => {},
        }
        k = k + 1;
    }
    let beta = match config.beta_override {
        Some(b) => b,
        None => match estimate_beta(&factors) {
            Ok(b) => b,
            Err(_) => DEFAULT_BETA,
        },
    };
    (sigma, beta)
}

/// One chain decoded: the result over `lo..n` is that chain's states
/// followed by the result from the step where it ended.
proof fn lemma_chains_step(em: Seq<Seq<int>>, tr: Seq<Seq<Seq<Option<int>>>>, lo: int, upto: int, n: int, policy: StepPolicy)
    requires
        0 <= lo < upto <= n,
        upto == n ==> first_dead(em, tr, lo, lo + 1, n) == n,
        upto < n ==> first_dead(em, tr, lo, lo + 1, n) == upto && policy == StepPolicy::RestartChain,
    ensures
        chains(em, tr, lo, n, policy) == match chains(em, tr, upto, n, policy) {
            Ok(rest) => Ok::<Seq<int>, int>(decoded(em, tr, lo, upto) + rest),
            Err(d) => Err::<Seq<int>, int>(d),
        },
{
    if upto == n {
        assert(decoded(em, tr, lo, n) + Seq::<int>::empty() =~= decoded(em, tr, lo, n));
    }
}

/// Matches a trace to the road network: the chosen candidate of every trace
/// point, or the error that `match_spec` names. Under the restart policy a
/// trace whose points all have candidates always matches, one candidate per
/// point.
pub fn map_match(input: &MatchInput, config: &Config) -> (r: Result<Vec<Candidate>, MatchError>)
    requires
        input.wf(),
        input.candidates@.len() <= MAX_STEPS,
    ensures
        same_result(r, match_spec(cands_view(input.candidates@), input.gaps@, routes_view(input.routes@), *config)),
        r matches Ok(v) ==> v@.len() == input.candidates@.len(),
        config.unreachable_step_policy == StepPolicy::RestartChain && input.candidates@.len() > 0 && (forall|i: int|
            0 <= i < input.candidates@.len() ==> (#[trigger] input.candidates@[i])@.len() > 0) ==> r is Ok,
{
    let ghost cs = cands_view(input.candidates@);
    let ghost rs = routes_view(input.routes@);
    let n = input.candidates.len();
    if n == 0 {
        return Err(MatchError::EmptyTrace);
    }
    let mut i: usize = 0;
    while i < n
        invariant
            n == input.candidates@.len(),
            cs == cands_view(input.candidates@),
            i <= n,
            forall|k: int| 0 <= k < i ==> (#[trigger] input.candidates@[k])@.len() > 0,
            first_empty(cs, 0) == first_empty(cs, i as int),
        decreases n - i,
    {
        if input.candidates[i].len() == 0 {
            assert(first_empty(cs, i as int) == i);
            return Err(MatchError::NoCandidates(i));
        }
        i = i + 1;
    }
    assert(first_empty(cs, n as int) == n);
    let (sigma, beta) = model_scales(input, config);
    let em = emission_probabilities(&input.candidates, beta);
    let tr = transition_probabilities(input, sigma);
    let ghost e = emission_table(cs, beta);
    let ghost t = transition_table(input.gaps@, rs, sigma);
    proof {
        assert forall|q: int| 0 <= q < n implies #[trigger] em_view(em@)[q] =~= e[q] by {}
        assert(em_view(em@) =~= e);
        assert forall|q: int| 0 <= q < n - 1 implies #[trigger] tr_view(tr@)[q] =~= t[q] by {
            assert forall|a: int| 0 <= a < t[q].len() implies #[trigger] tr_view(tr@)[q][a] =~= t[q][a] by {
                assert forall|b: int| 0 <= b < t[q][a].len() implies #[trigger] tr_view(tr@)[q][a][b] == t[q][a][b] by {
                    assert(input.routes@[q]@[a]@[b] == rs[q][a][b]);
                }
            }
        }
        assert(tr_view(tr@) =~= t);
        assert(tables_wf(e, t)) by {
            assert forall|q: int, a: int, b: int|
                0 <= q < t.len() && 0 <= a < t[q].len() && 0 <= b < t[q][a].len()
                    && (#[trigger] t[q][a][b]).is_some() implies 0 <= t[q][a][b].unwrap() < SCORE_BOUND by {
                assert(tr_view(tr@)[q][a][b] == t[q][a][b]);
            }
            assert forall|q: int, j: int| 0 <= q < e.len() && 0 <= j < e[q].len() implies 0 <= #[trigger] e[q][j] < SCORE_BOUND by {
                assert(em_view(em@)[q][j] == e[q][j]);
            }
        }
    }
    let policy = config.unreachable_step_policy;
    let ghost whole = chains(e, t, 0, n as int, policy);
    let ghost mut pre: Seq<int> = Seq::empty();
    let mut out: Vec<Candidate> = Vec::new();
    let mut lo: usize = 0;
    while lo < n
        invariant
            n == input.candidates@.len(),
            cs == cands_view(input.candidates@),
            tables_wf(em_view(em@), tr_view(tr@)),
            em_view(em@) == e,
            tr_view(tr@) == t,
            e.len() == n,
            policy == config.unreachable_step_policy,
            lo <= n,
            whole == chains(e, t, 0, n as int, policy),
            pre.len() == lo,
            out@.len() == lo,
            forall|k: int| 0 <= k < lo ==> 0 <= #[trigger] pre[k] < cs[k].len() && out@[k] == cs[k][pre[k]],
            whole == match chains(e, t, lo as int, n as int, policy) {
                Ok(rest) => Ok::<Seq<int>, int>(pre + rest),
                Err(d) => Err::<Seq<int>, int>(d),
            },
            e == emission_table(cs, beta),
            rs == routes_view(input.routes@),
            t == transition_table(input.gaps@, rs, sigma),
            sigma == sigma_of(cs, *config),
            beta == beta_of(cs, input.gaps@, rs, *config),
            first_empty(cs, 0) == n,
        decreases n - lo,
    {
        proof {
            lemma_first_dead_range(e, t, lo as int, lo + 1, n as int);
        }
        let (upto, p) = match decode_chain(&em, &tr, lo, n) {
            Ok(p) => (n, p),
            Err(d) => {
                if policy == StepPolicy::FailFast {
                    assert(chains(e, t, lo as int, n as int, policy) == Err::<Seq<int>, int>(d as int));
                    return Err(MatchError::DisconnectedChain(d));
                }
                proof {
                    lemma_first_dead_prefix(e, t, lo as int, lo + 1, n as int);
                }
                match decode_chain(&em, &tr, lo, d) {
                    Ok(p) => (d, p),
                    Err(_) => {
                        assert(false);
                        (d, Vec::new())
                    },
                }
            },
        };
        proof {
            lemma_decoded(e, t, lo as int, upto as int);
        }
        let ghost seg = decoded(e, t, lo as int, upto as int);
        assert(p@.len() == seg.len());
        let mut q: usize = 0;
        while q < p.len()
            invariant
                n == input.candidates@.len(),
                cs == cands_view(input.candidates@),
                lo < upto <= n,
                p@.len() == upto - lo,
                seg.len() == upto - lo,
                forall|k: int| 0 <= k < p@.len() ==> #[trigger] p@[k] as int == seg[k],
                forall|k: int| 0 <= k < upto - lo ==> 0 <= #[trigger] seg[k] < e[lo + k].len(),
                e == emission_table(cs, beta),
                q <= p@.len(),
                out@.len() == lo + q,
                forall|k: int| 0 <= k < lo ==> 0 <= #[trigger] pre[k] < cs[k].len() && out@[k] == cs[k][pre[k]],
                forall|k: int| lo <= k < lo + q ==> #[trigger] out@[k] == cs[k][seg[k - lo]],
            decreases p@.len() - q,
        {
            assert(0 <= seg[q as int] < e[lo + q].len());
            out.push(input.candidates[lo + q][p[q]]);
            q = q + 1;
        }
        proof {
            let old_pre = pre;
            pre = pre + seg;
            assert forall|k: int| 0 <= k < upto implies 0 <= #[trigger] pre[k] < cs[k].len() && out@[k] == cs[k][pre[k]] by {
                if k >= lo {
                    assert(pre[k] == seg[k - lo]);
                    assert(0 <= seg[k - lo] < e[lo + (k - lo)].len());
                } else {
                    assert(pre[k] == old_pre[k]);
                }
            }
            lemma_chains_step(e, t, lo as int, upto as int, n as int, policy);
            match chains(e, t, upto as int, n as int, policy) {
                Ok(rest) => {
                    assert(old_pre + (seg + rest) =~= pre + rest);
                },
                Err(_) => {},
            }
        }
        lo = upto;
    }
    proof {
        assert(chains(e, t, n as int, n as int, policy) == Ok::<Seq<int>, int>(Seq::empty()));
        assert(pre + Seq::<int>::empty() == pre);
        assert(out@ =~= Seq::new(n as nat, |k: int| cs[k][pre[k]]));
    }
    Ok(out)
}

/// Two calls on inputs with the same contents and the same configuration
/// give the same result: matching has no hidden state or randomness.
pub proof fn lemma_match_deterministic(a: MatchInput, b: MatchInput, ca: Config, cb: Config)
    requires
        cands_view(a.candidates@) == cands_view(b.candidates@),
        a.gaps@ == b.gaps@,
        routes_view(a.routes@) == routes_view(b.routes@),
        ca == cb,
    ensures
        match_spec(cands_view(a.candidates@), a.gaps@, routes_view(a.routes@), ca)
            == match_spec(cands_view(b.candidates@), b.gaps@, routes_view(b.routes@), cb),
{
}

/// A trace of one point with one candidate matches that candidate, and its
/// transition table is empty: no transition is scored.
pub proof fn lemma_single_point(cs: Seq<Seq<Candidate>>, gaps: Seq<u32>, routes: Seq<Seq<Seq<Option<u32>>>>, config: Config)
    requires
        cs.len() == 1,
        cs[0].len() == 1,
        gaps.len() == 0,
        routes.len() == 0,
    ensures
        match_spec(cs, gaps, routes, config) == Ok::<Seq<Candidate>, MatchError>(seq![cs[0][0]]),
        transition_table(gaps, routes, sigma_of(cs, config)).len() == 0,
{
    let e = emission_table(cs, beta_of(cs, gaps, routes, config));
    let t = transition_table(gaps, routes, sigma_of(cs, config));
    assert(first_empty(cs, 1) == 1);
    assert(first_empty(cs, 0) == 1);
    assert(first_dead(e, t, 0, 1, 1) == 1);
    let l = layer(e, t, 0, 0);
    assert(l.len() == 1);
    assert(best_of(l, 0) is None);
    assert(best_of(l, 1) == Some((e[0][0], 0int)));
    assert(trace_back(e, t, 0, 0, 0) == seq![0int]);
    assert(decoded(e, t, 0, 1) == seq![0int]);
    assert(chains(e, t, 0, 1, config.unreachable_step_policy) == Ok::<Seq<int>, int>(seq![0int]));
    assert(Seq::new(1, |i: int| cs[i][seq![0int][i]]) =~= seq![cs[0][0]]);
}

/// The candidates that the road network found near a point and that lie
/// within the search radius, in the order found.
pub fn candidates_within(found: &Vec<Candidate>, radius: u32) -> (r: Vec<Candidate>)
    ensures
        r@ == found@.filter(|c: Candidate| c.distance <= radius),
{
    let mut r: Vec<Candidate> = Vec::new();
    let mut i: usize = 0;
    while i < found.len()
        invariant
            i <= found@.len(),
            r@ == found@.take(i as int).filter(|c: Candidate| c.distance <= radius),
        decreases found@.len() - i,
    {
        let c = found[i];
        proof {
            reveal(Seq::filter);
            assert(found@.take(i + 1).drop_last() == found@.take(i as int));
        }
        if c.distance <= radius {
            r.push(c);
        }
        i = i + 1;
    }
    assert(found@.take(found@.len() as int) == found@);
    r
}

} // verus!
