//! Robust estimation of the two model scales from the trace itself.
//!
//! The noise scale is `1.4826 * median` of the projection distances of the
//! best candidates, the transition scale `median / ln 2` of the distance
//! factors between consecutive best candidates. Both are rounded down to a
//! whole millimetre and clamped to `1..=u32::MAX`.
use vstd::prelude::*;
use crate::model::MatchError;

verus! {

pub const SIGMA_NUM: u64 = 14_826;
pub const SIGMA_DEN: u64 = 10_000;
/// `1 / ln 2` as `BETA_NUM / BETA_DEN`.
pub const BETA_NUM: u64 = 1_000_000;
pub const BETA_DEN: u64 = 693_147;

/// Number of elements of `s` strictly below `x`.
pub open spec fn count_below(s: Seq<u32>, x: int) -> nat
    decreases s.len(),
{
    if s.len() == 0 {
        0
    } else {
        count_below(s.drop_last(), x) + if (s.last() as int) < x { 1nat } else { 0nat }
    }
}

/// Number of elements of `s` at most `x`.
pub open spec fn count_at_most(s: Seq<u32>, x: int) -> nat
    decreases s.len(),
{
    if s.len() == 0 {
        0
    } else {
        count_at_most(s.drop_last(), x) + if (s.last() as int) <= x { 1nat } else { 0nat }
    }
}

/// `m` is the lower median of `s`: an element of `s` with at most
/// `(len - 1) / 2` elements below it and more than that at or below it.
pub open spec fn is_lower_median(s: Seq<u32>, m: u32) -> bool {
    &&& s.contains(m)
    &&& count_below(s, m as int) <= (s.len() - 1) / 2
    &&& (s.len() - 1) / 2 < count_at_most(s, m as int)
}

/// The lower median of `s` (meaningful for a non-empty `s`).
pub open spec fn median_of(s: Seq<u32>) -> u32 {
    choose|m: u32| is_lower_median(s, m)
}

/// `m * num / den`, rounded down and clamped to `1..=u32::MAX`.
pub open spec fn scaled(m: int, num: int, den: int) -> int {
    let v = m * num / den;
    if v < 1 { 1 } else if v > 0xffff_ffff { 0xffff_ffff } else { v }
}

pub proof fn lemma_counts_bounded(s: Seq<u32>, x: int)
    ensures
        count_below(s, x) <= count_at_most(s, x) <= s.len(),
        (forall|i: int| 0 <= i < s.len() ==> s[i] <= x) ==> count_at_most(s, x) == s.len(),
        s.contains(x as u32) && 0 <= x <= 0xffff_ffff ==> count_below(s, x) < count_at_most(s, x),
    decreases s.len(),
{
    if s.len() > 0 {
        lemma_counts_bounded(s.drop_last(), x);
        if s.contains(x as u32) && 0 <= x <= 0xffff_ffff && s.last() != x as u32 {
            let i = choose|i: int| 0 <= i < s.len() && s[i] == x as u32;
            assert(s.drop_last()[i] == x as u32);
        }
    }
}

pub proof fn lemma_count_same(s: Seq<u32>, y: int, x: int)
    requires
        forall|i: int| 0 <= i < s.len() ==> ((s[i] as int) < y <==> (s[i] as int) <= x),
    ensures
        count_below(s, y) == count_at_most(s, x),
    decreases s.len(),
{
    if s.len() > 0 {
        lemma_count_same(s.drop_last(), y, x);
    }
}

pub proof fn lemma_count_monotone(s: Seq<u32>, x: int, y: int)
    requires
        x < y,
    ensures
        count_at_most(s, x) <= count_below(s, y),
    decreases s.len(),
{
    if s.len() > 0 {
        lemma_count_monotone(s.drop_last(), x, y);
    }
}

/// A sequence has at most one lower median.
pub proof fn lemma_median_unique(s: Seq<u32>, m1: u32, m2: u32)
    requires
        is_lower_median(s, m1),
        is_lower_median(s, m2),
    ensures
        m1 == m2,
{
    if m1 < m2 {
        lemma_count_monotone(s, m1 as int, m2 as int);
    } else if m2 < m1 {
        lemma_count_monotone(s, m2 as int, m1 as int);
    }
}

fn count_below_exec(v: &Vec<u32>, x: u32) -> (r: usize)
    ensures
        r == count_below(v@, x as int),
{
    let mut c: usize = 0;
    let mut i: usize = 0;
    while i < v.len()
        invariant
            i <= v@.len(),
            c == count_below(v@.take(i as int), x as int),
            c <= i,
        decreases v@.len() - i,
    {
        assert(v@.take(i + 1).drop_last() == v@.take(i as int));
        if v[i] < x {
            c = c + 1;
        }
        i = i + 1;
    }
    assert(v@.take(v@.len() as int) == v@);
    c
}

fn count_at_most_exec(v: &Vec<u32>, x: u32) -> (r: usize)
    ensures
        r == count_at_most(v@, x as int),
{
    let mut c: usize = 0;
    let mut i: usize = 0;
    while i < v.len()
        invariant
            i <= v@.len(),
            c == count_at_most(v@.take(i as int), x as int),
            c <= i,
        decreases v@.len() - i,
    {
        assert(v@.take(i + 1).drop_last() == v@.take(i as int));
        if v[i] <= x {
            c = c + 1;
        }
        i = i + 1;
    }
    assert(v@.take(v@.len() as int) == v@);
    c
}

/// The smallest element of `v` above `x`, if any.
fn least_above(v: &Vec<u32>, x: u32) -> (r: Option<u32>)
    ensures
        match r {
            Some(y) => v@.contains(y) && x < y && forall|i: int| 0 <= i < v@.len() && x < v@[i] ==> y <= #[trigger] v@[i],
            None => forall|i: int| 0 <= i < v@.len() ==> #[trigger] v@[i] <= x,
        },
{
    let mut best: Option<u32> = None;
    let mut i: usize = 0;
    while i < v.len()
        invariant
            i <= v@.len(),
            match best {
                Some(y) => v@.contains(y) && x < y && forall|k: int| 0 <= k < i && x < v@[k] ==> y <= #[trigger] v@[k],
                None => forall|k: int| 0 <= k < i ==> #[trigger] v@[k] <= x,
            },
        decreases v@.len() - i,
    {
        let e = v[i];
        if x < e {
            match best {
                None => {
                    best = Some(e);
                },
                Some(y) => {
                    if e < y {
                        best = Some(e);
                    }
                },
            }
        }
        i = i + 1;
    }
    best
}

/// The lower median of a non-empty sequence of distances.
pub fn median(v: &Vec<u32>) -> (m: u32)
    requires
        v@.len() > 0,
    ensures
        is_lower_median(v@, m),
        m == median_of(v@),
{
    let k: usize = (v.len() - 1) / 2;
    let mut x: u32 = v[0];
    let mut i: usize = 1;
    while i < v.len()
        invariant
            1 <= i <= v@.len(),
            v@.contains(x),
            forall|q: int| 0 <= q < i ==> x <= #[trigger] v@[q],
        decreases v@.len() - i,
    {
        if v[i] < x {
            x = v[i];
        }
        i = i + 1;
    }
    proof {
        lemma_count_same(v@, x as int, x as int - 1);
        lemma_count_zero(v@, x as int - 1);
    }
    let mut below: usize = 0;
    let mut at_most = count_at_most_exec(v, x);
    while at_most <= k
        invariant
            v@.len() > 0,
            k == (v@.len() - 1) / 2,
            v@.contains(x),
            below == count_below(v@, x as int),
            below <= k,
            at_most == count_at_most(v@, x as int),
        decreases v@.len() - below,
    {
        proof {
            lemma_counts_bounded(v@, x as int);
        }
        let next = least_above(v, x);
        match next {
            Some(y) => {
                proof {
                    lemma_count_same(v@, y as int, x as int);
                    lemma_counts_bounded(v@, y as int);
                }
                x = y;
                below = at_most;
                at_most = count_at_most_exec(v, x);
            },
            None => {
                assert(false);
            },
        }
    }
    proof {
        assert(is_lower_median(v@, x));
        lemma_median_unique(v@, x, median_of(v@));
    }
    x
}

proof fn lemma_count_zero(s: Seq<u32>, x: int)
    requires
        forall|i: int| 0 <= i < s.len() ==> x < s[i],
    ensures
        count_at_most(s, x) == 0,
    decreases s.len(),
{
    if s.len() > 0 {
        lemma_count_zero(s.drop_last(), x);
    }
}

fn scale(m: u32, num: u64, den: u64) -> (r: u32)
    requires
        0 < den,
        num <= 1_000_000,
    ensures
        r as int == scaled(m as int, num as int, den as int),
{
    proof {
        assert((m as int) * (num as int) <= 0xffff_ffff * 1_000_000) by (nonlinear_arith)
            requires m <= 0xffff_ffff, num <= 1_000_000;
        assert((m as int) * (num as int) >= 0) by (nonlinear_arith)
            requires m >= 0, num >= 0;
    }
    let v = (m as u64) * num / den;
    if v < 1 {
        1
    } else if v > 0xffff_ffff {
        0xffff_ffff
    } else {
        v as u32
    }
}

/// Noise scale from the projection distances of the best candidate of each
/// trace point; fewer than two such distances cannot give one.
pub fn estimate_sigma(best_distances: &Vec<u32>) -> (r: Result<u32, MatchError>)
    ensures
        best_distances@.len() < 2 <==> r == Err::<u32, MatchError>(MatchError::DegenerateParameters),
        best_distances@.len() >= 2 ==> r == Ok::<u32, MatchError>(
            scaled(median_of(best_distances@) as int, SIGMA_NUM as int, SIGMA_DEN as int) as u32,
        ),
{
    if best_distances.len() < 2 {
        return Err(MatchError::DegenerateParameters);
    }
    let m = median(best_distances);
    Ok(scale(m, SIGMA_NUM, SIGMA_DEN))
}

/// Transition scale from the distance factors between consecutive best
/// candidates; with none of them there is nothing to estimate from.
pub fn estimate_beta(factors: &Vec<u32>) -> (r: Result<u32, MatchError>)
    ensures
        factors@.len() == 0 <==> r == Err::<u32, MatchError>(MatchError::DegenerateParameters),
        factors@.len() > 0 ==> r == Ok::<u32, MatchError>(
            scaled(median_of(factors@) as int, BETA_NUM as int, BETA_DEN as int) as u32,
        ),
{
    if factors.len() == 0 {
        return Err(MatchError::DegenerateParameters);
    }
    let m = median(factors);
    Ok(scale(m, BETA_NUM, BETA_DEN))
}

} // verus!
