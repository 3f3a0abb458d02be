//! Viterbi decoding over a trellis of integer scores.
//!
//! Step `i` of the trellis has one state per candidate of trace point `i`.
//! `em[i][j]` is the emission score of state `j` at step `i`, and
//! `tr[i][a][b]` the transition score from state `a` at step `i` to state `b`
//! at step `i + 1` (`None`: impossible). Scores are negative log-likelihoods,
//! so the decoder keeps, for each state, the lowest cumulative score of a
//! path that reaches it, and the predecessor on that path. Ties go to the
//! lowest index.
use vstd::prelude::*;
use crate::probability::SCORE_BOUND;

verus! {

/// Upper bound on the number of steps, so that cumulative scores fit in 128 bits.
pub const MAX_STEPS: usize = 0x200_0000;

/// Spec form of an emission table.
pub open spec fn em_view(em: Seq<Vec<u128>>) -> Seq<Seq<int>> {
    em.map_values(|r: Vec<u128>| r@.map_values(|x: u128| x as int))
}

/// Spec form of a transition table.
pub open spec fn tr_view(tr: Seq<Vec<Vec<Option<u128>>>>) -> Seq<Seq<Seq<Option<int>>>> {
    tr.map_values(
        |b: Vec<Vec<Option<u128>>>|
            b@.map_values(
                |r: Vec<Option<u128>>|
                    r@.map_values(
                        |x: Option<u128>|
                            match x {
                                Some(v) => Some(v as int),
                                None => None,
                            },
                    ),
            ),
    )
}

/// The emission and transition tables fit together and stay within bounds.
pub open spec fn tables_wf(em: Seq<Seq<int>>, tr: Seq<Seq<Seq<Option<int>>>>) -> bool {
    &&& em.len() == tr.len() + 1
    &&& em.len() <= MAX_STEPS
    &&& forall|i: int| #![trigger em[i]] 0 <= i < em.len() ==> em[i].len() > 0
    &&& forall|i: int, j: int| 0 <= i < em.len() && 0 <= j < em[i].len() ==> 0 <= #[trigger] em[i][j] < SCORE_BOUND
    &&& forall|i: int| #![trigger tr[i]] 0 <= i < tr.len() ==> tr[i].len() == em[i].len()
    &&& forall|i: int, a: int|
        #![trigger tr[i][a]]
        0 <= i < tr.len() && 0 <= a < tr[i].len() ==> tr[i][a].len() == em[i + 1].len()
    &&& forall|i: int, a: int, b: int|
        0 <= i < tr.len() && 0 <= a < tr[i].len() && 0 <= b < tr[i][a].len()
            && (#[trigger] tr[i][a][b]).is_some() ==> 0 <= tr[i][a][b].unwrap() < SCORE_BOUND
}

/// Best way into state `j` over the predecessors `0..k` of the previous
/// step, whose cumulative scores are `prev`: the lowest sum of a live
/// predecessor's score and its transition score, with the lowest such
/// predecessor.
pub open spec fn relax(prev: Seq<Option<int>>, t: Seq<Seq<Option<int>>>, j: int, k: int) -> Option<(int, int)>
    decreases k,
{
    if k <= 0 {
        None
    } else {
        let best = relax(prev, t, j, k - 1);
        let a = k - 1;
        match (prev[a], t[a][j]) {
            (Some(s), Some(c)) => {
                let v = s + c;
                match best {
                    None => Some((v, a)),
                    Some(bv) => if v < bv.0 { Some((v, a)) } else { best },
                }
            },
            _ => best,
        }
    }
}

/// Cumulative scores of the states at step `i` of a chain that starts at
/// step `lo`; `None` for a state that no path from step `lo` reaches.
pub open spec fn layer(em: Seq<Seq<int>>, tr: Seq<Seq<Seq<Option<int>>>>, lo: int, i: int) -> Seq<Option<int>>
    decreases i - lo,
{
    if i <= lo {
        Seq::new(em[i].len(), |j: int| Some(em[i][j]))
    } else {
        let prev = layer(em, tr, lo, i - 1);
        Seq::new(
            em[i].len(),
            |j: int|
                match relax(prev, tr[i - 1], j, em[i - 1].len() as int) {
                    Some(b) => Some(b.0 + em[i][j]),
                    None => None,
                },
        )
    }
}

/// The predecessor that state `j` at step `i` keeps (0 where it is unreachable).
pub open spec fn backptr(em: Seq<Seq<int>>, tr: Seq<Seq<Seq<Option<int>>>>, lo: int, i: int, j: int) -> int {
    match relax(layer(em, tr, lo, i - 1), tr[i - 1], j, em[i - 1].len() as int) {
        Some(b) => b.1,
        None => 0,
    }
}

/// Lowest score among `l[0..k]`, with its lowest index.
pub open spec fn best_of(l: Seq<Option<int>>, k: int) -> Option<(int, int)>
    decreases k,
{
    if k <= 0 {
        None
    } else {
        let best = best_of(l, k - 1);
        match l[k - 1] {
            Some(v) => match best {
                None => Some((v, k - 1)),
                Some(bv) => if v < bv.0 { Some((v, k - 1)) } else { best },
            },
            None => best,
        }
    }
}

/// Some state of the layer is reachable.
pub open spec fn is_live(l: Seq<Option<int>>) -> bool {
    exists|j: int| 0 <= j < l.len() && (#[trigger] l[j]).is_some()
}

/// The first step in `i..hi` at which the chain from `lo` has no live state,
/// or `hi` if there is none.
pub open spec fn first_dead(em: Seq<Seq<int>>, tr: Seq<Seq<Seq<Option<int>>>>, lo: int, i: int, hi: int) -> int
    decreases hi - i,
{
    if i >= hi {
        hi
    } else if !is_live(layer(em, tr, lo, i)) {
        i
    } else {
        first_dead(em, tr, lo, i + 1, hi)
    }
}

/// The path from step `lo` to state `j` at step `i` that the back-pointers give.
pub open spec fn trace_back(em: Seq<Seq<int>>, tr: Seq<Seq<Seq<Option<int>>>>, lo: int, i: int, j: int) -> Seq<int>
    decreases i - lo,
{
    if i <= lo {
        seq![j]
    } else {
        trace_back(em, tr, lo, i - 1, backptr(em, tr, lo, i, j)).push(j)
    }
}

/// The decoded state sequence of the chain over steps `lo..hi`: the back-pointer
/// path into the best state of the last step.
pub open spec fn decoded(em: Seq<Seq<int>>, tr: Seq<Seq<Seq<Option<int>>>>, lo: int, hi: int) -> Seq<int> {
    let last = layer(em, tr, lo, hi - 1);
    match best_of(last, last.len() as int) {
        Some(b) => trace_back(em, tr, lo, hi - 1, b.1),
        None => trace_back(em, tr, lo, hi - 1, 0),
    }
}

pub proof fn lemma_relax(prev: Seq<Option<int>>, t: Seq<Seq<Option<int>>>, j: int, k: int)
    ensures
        relax(prev, t, j, k) matches Some(b) ==> 0 <= b.1 < k && prev[b.1] is Some && t[b.1][j] is Some
            && b.0 == prev[b.1].unwrap() + t[b.1][j].unwrap(),
    decreases k,
{
    if k > 0 {
        lemma_relax(prev, t, j, k - 1);
    }
}

pub proof fn lemma_best_of(l: Seq<Option<int>>, k: int)
    ensures
        best_of(l, k) matches Some(b) ==> 0 <= b.1 < k && l[b.1] == Some(b.0),
        best_of(l, k) is None ==> forall|m: int| 0 <= m < k ==> (#[trigger] l[m]) is None,
    decreases k,
{
    if k > 0 {
        lemma_best_of(l, k - 1);
    }
}

/// Cumulative scores grow by less than two single-score bounds per step.
pub proof fn lemma_layer_bound(em: Seq<Seq<int>>, tr: Seq<Seq<Seq<Option<int>>>>, lo: int, i: int)
    requires
        tables_wf(em, tr),
        0 <= lo <= i < em.len(),
    ensures
        layer(em, tr, lo, i).len() == em[i].len(),
        forall|j: int|
            0 <= j < em[i].len() && (#[trigger] layer(em, tr, lo, i)[j]) is Some ==> 0 <= layer(em, tr, lo, i)[j].unwrap()
                < (2 * (i - lo) + 1) * SCORE_BOUND,
    decreases i - lo,
{
    if i > lo {
        lemma_layer_bound(em, tr, lo, i - 1);
        let prev = layer(em, tr, lo, i - 1);
        assert forall|j: int|
            0 <= j < em[i].len() && (#[trigger] layer(em, tr, lo, i)[j]) is Some implies 0 <= layer(em, tr, lo, i)[j].unwrap()
                < (2 * (i - lo) + 1) * SCORE_BOUND by {
            lemma_relax(prev, tr[i - 1], j, em[i - 1].len() as int);
            let b = relax(prev, tr[i - 1], j, em[i - 1].len() as int).unwrap();
            assert(prev[b.1] is Some);
        }
    }
}

/// Shape of a back-pointer path: one state per step, each in range, each
/// the kept predecessor of the next.
pub proof fn lemma_trace_back(em: Seq<Seq<int>>, tr: Seq<Seq<Seq<Option<int>>>>, lo: int, i: int, j: int)
    requires
        tables_wf(em, tr),
        0 <= lo <= i < em.len(),
        0 <= j < em[i].len(),
    ensures
        trace_back(em, tr, lo, i, j).len() == i - lo + 1,
        trace_back(em, tr, lo, i, j)[i - lo] == j,
        forall|k: int| lo <= k <= i ==> 0 <= #[trigger] trace_back(em, tr, lo, i, j)[k - lo] < em[k].len(),
        forall|k: int|
            lo < k <= i ==> trace_back(em, tr, lo, i, j)[k - 1 - lo] == backptr(em, tr, lo, k, #[trigger] trace_back(em, tr, lo, i, j)[k - lo]),
    decreases i - lo,
{
    if i > lo {
        let a = backptr(em, tr, lo, i, j);
        lemma_layer_bound(em, tr, lo, i - 1);
        lemma_relax(layer(em, tr, lo, i - 1), tr[i - 1], j, em[i - 1].len() as int);
        lemma_trace_back(em, tr, lo, i - 1, a);
        let p = trace_back(em, tr, lo, i - 1, a);
        assert(trace_back(em, tr, lo, i, j) == p.push(j));
        assert forall|k: int| lo < k <= i implies trace_back(em, tr, lo, i, j)[k - 1 - lo] == backptr(em, tr, lo, k, #[trigger] trace_back(em, tr, lo, i, j)[k - lo]) by {
            if k < i {
                assert(p[k - lo] == trace_back(em, tr, lo, i, j)[k - lo]);
            }
        }
        assert forall|k: int| lo <= k <= i implies 0 <= #[trigger] trace_back(em, tr, lo, i, j)[k - lo] < em[k].len() by {
            if k < i {
                assert(p[k - lo] == trace_back(em, tr, lo, i, j)[k - lo]);
            }
        }
    }
}

/// A decoded chain holds one in-range state per step.
pub proof fn lemma_decoded(em: Seq<Seq<int>>, tr: Seq<Seq<Seq<Option<int>>>>, lo: int, hi: int)
    requires
        tables_wf(em, tr),
        0 <= lo < hi <= em.len(),
    ensures
        decoded(em, tr, lo, hi).len() == hi - lo,
        forall|k: int| 0 <= k < hi - lo ==> 0 <= #[trigger] decoded(em, tr, lo, hi)[k] < em[lo + k].len(),
{
    let last = layer(em, tr, lo, hi - 1);
    lemma_layer_bound(em, tr, lo, hi - 1);
    lemma_best_of(last, last.len() as int);
    let j = match best_of(last, last.len() as int) {
        Some(b) => b.1,
        None => 0,
    };
    lemma_trace_back(em, tr, lo, hi - 1, j);
    assert forall|k: int| 0 <= k < hi - lo implies 0 <= #[trigger] decoded(em, tr, lo, hi)[k] < em[lo + k].len() by {
        assert(decoded(em, tr, lo, hi)[(lo + k) - lo] == trace_back(em, tr, lo, hi - 1, j)[(lo + k) - lo]);
    }
}

/// The first dead step lies in `i..=hi`.
pub proof fn lemma_first_dead_range(em: Seq<Seq<int>>, tr: Seq<Seq<Seq<Option<int>>>>, lo: int, i: int, hi: int)
    requires
        i <= hi,
    ensures
        i <= first_dead(em, tr, lo, i, hi) <= hi,
    decreases hi - i,
{
    if i < hi && is_live(layer(em, tr, lo, i)) {
        lemma_first_dead_range(em, tr, lo, i + 1, hi);
    }
}

/// A chain that first dies at step `d` lives through every step before `d`.
pub proof fn lemma_first_dead_prefix(em: Seq<Seq<int>>, tr: Seq<Seq<Seq<Option<int>>>>, lo: int, i: int, hi: int)
    requires
        i <= first_dead(em, tr, lo, i, hi) < hi,
    ensures
        first_dead(em, tr, lo, i, first_dead(em, tr, lo, i, hi)) == first_dead(em, tr, lo, i, hi),
    decreases hi - i,
{
    let d = first_dead(em, tr, lo, i, hi);
    if i < d {
        lemma_first_dead_prefix(em, tr, lo, i + 1, hi);
        assert(first_dead(em, tr, lo, i, d) == first_dead(em, tr, lo, i + 1, d));
    }
}

/// `p` picks an in-range state at each of the steps `lo..lo + p.len()`, and
/// every transition between consecutive picks is possible.
pub open spec fn valid_path(em: Seq<Seq<int>>, tr: Seq<Seq<Seq<Option<int>>>>, lo: int, p: Seq<int>) -> bool {
    &&& forall|k: int| 0 <= k < p.len() ==> 0 <= #[trigger] p[k] < em[lo + k].len()
    &&& forall|k: int| 0 < k < p.len() ==> (#[trigger] tr[lo + k - 1][p[k - 1]][p[k]]) is Some
}

/// Total score of a path over steps `lo..lo + p.len()`: its emissions and
/// its transitions.
pub open spec fn path_cost(em: Seq<Seq<int>>, tr: Seq<Seq<Seq<Option<int>>>>, lo: int, p: Seq<int>) -> int
    decreases p.len(),
{
    if p.len() == 0 {
        0
    } else if p.len() == 1 {
        em[lo][p[0]]
    } else {
        let i = lo + p.len() - 1;
        path_cost(em, tr, lo, p.drop_last()) + tr[i - 1][p[p.len() - 2]][p.last()].unwrap() + em[i][p.last()]
    }
}

proof fn lemma_relax_min(prev: Seq<Option<int>>, t: Seq<Seq<Option<int>>>, j: int, k: int, a: int)
    requires
        0 <= a < k,
        prev[a] is Some,
        t[a][j] is Some,
    ensures
        relax(prev, t, j, k) is Some,
        relax(prev, t, j, k).unwrap().0 <= prev[a].unwrap() + t[a][j].unwrap(),
    decreases k,
{
    if a < k - 1 {
        lemma_relax_min(prev, t, j, k - 1, a);
    }
}

proof fn lemma_best_of_min(l: Seq<Option<int>>, k: int, m: int)
    requires
        0 <= m < k,
        l[m] is Some,
    ensures
        best_of(l, k) is Some,
        best_of(l, k).unwrap().0 <= l[m].unwrap(),
    decreases k,
{
    if m < k - 1 {
        lemma_best_of_min(l, k - 1, m);
    }
}

/// Every valid path into state `j` at step `i` scores at least the layer's
/// score for `j`, which therefore exists.
proof fn lemma_layer_lower_bound(em: Seq<Seq<int>>, tr: Seq<Seq<Seq<Option<int>>>>, lo: int, q: Seq<int>)
    requires
        tables_wf(em, tr),
        0 <= lo,
        0 < q.len(),
        lo + q.len() <= em.len(),
        valid_path(em, tr, lo, q),
    ensures
        layer(em, tr, lo, lo + q.len() - 1)[q.last()] is Some,
        layer(em, tr, lo, lo + q.len() - 1)[q.last()].unwrap() <= path_cost(em, tr, lo, q),
    decreases q.len(),
{
    let i = lo + q.len() - 1;
    if q.len() > 1 {
        let r = q.drop_last();
        assert(valid_path(em, tr, lo, r)) by {
            assert forall|k: int| 0 < k < r.len() implies (#[trigger] tr[lo + k - 1][r[k - 1]][r[k]]) is Some by {
                assert(tr[lo + k - 1][q[k - 1]][q[k]] is Some);
            }
        }
        lemma_layer_lower_bound(em, tr, lo, r);
        let a = q[q.len() - 2];
        assert(r.last() == a);
        assert(tr[lo + (q.len() - 1) - 1][q[(q.len() - 1) - 1]][q[q.len() - 1]] is Some);
        lemma_layer_bound(em, tr, lo, i - 1);
        lemma_relax_min(layer(em, tr, lo, i - 1), tr[i - 1], q.last(), em[i - 1].len() as int, a);
    }
}

/// The back-pointer path into a reachable state is valid and scores exactly
/// the layer's score for that state.
proof fn lemma_trace_back_cost(em: Seq<Seq<int>>, tr: Seq<Seq<Seq<Option<int>>>>, lo: int, i: int, j: int)
    requires
        tables_wf(em, tr),
        0 <= lo <= i < em.len(),
        0 <= j < em[i].len(),
        layer(em, tr, lo, i)[j] is Some,
    ensures
        valid_path(em, tr, lo, trace_back(em, tr, lo, i, j)),
        path_cost(em, tr, lo, trace_back(em, tr, lo, i, j)) == layer(em, tr, lo, i)[j].unwrap(),
    decreases i - lo,
{
    lemma_trace_back(em, tr, lo, i, j);
    let p = trace_back(em, tr, lo, i, j);
    if i > lo {
        let prev = layer(em, tr, lo, i - 1);
        lemma_layer_bound(em, tr, lo, i - 1);
        lemma_relax(prev, tr[i - 1], j, em[i - 1].len() as int);
        let a = backptr(em, tr, lo, i, j);
        lemma_trace_back_cost(em, tr, lo, i - 1, a);
        let r = trace_back(em, tr, lo, i - 1, a);
        assert(p == r.push(j));
        assert(p.drop_last() == r);
        assert(p[p.len() - 2] == a);
        assert forall|k: int| 0 < k < p.len() implies (#[trigger] tr[lo + k - 1][p[k - 1]][p[k]]) is Some by {
            if k < p.len() - 1 {
                assert(tr[lo + k - 1][r[k - 1]][r[k]] is Some);
            }
        }
    }
}

/// The decoded chain is a valid path over `lo..hi`, and no valid path over
/// those steps has a lower total score: it is a most likely state sequence.
pub proof fn lemma_decoded_optimal(em: Seq<Seq<int>>, tr: Seq<Seq<Seq<Option<int>>>>, lo: int, hi: int, q: Seq<int>)
    requires
        tables_wf(em, tr),
        0 <= lo < hi <= em.len(),
        q.len() == hi - lo,
        valid_path(em, tr, lo, q),
    ensures
        valid_path(em, tr, lo, decoded(em, tr, lo, hi)),
        path_cost(em, tr, lo, decoded(em, tr, lo, hi)) <= path_cost(em, tr, lo, q),
{
    let last = layer(em, tr, lo, hi - 1);
    lemma_layer_bound(em, tr, lo, hi - 1);
    lemma_layer_lower_bound(em, tr, lo, q);
    lemma_best_of_min(last, last.len() as int, q.last());
    lemma_best_of(last, last.len() as int);
    let f = best_of(last, last.len() as int).unwrap().1;
    lemma_trace_back_cost(em, tr, lo, hi - 1, f);
}

/// An executable score agrees with a spec score.
pub open spec fn same_score(x: Option<u128>, y: Option<int>) -> bool {
    match x {
        Some(v) => y == Some(v as int),
        None => y is None,
    }
}

/// The spec tables have the shapes and values of the executable ones.
pub proof fn lemma_views(em: Seq<Vec<u128>>, tr: Seq<Vec<Vec<Option<u128>>>>)
    ensures
        em_view(em).len() == em.len(),
        tr_view(tr).len() == tr.len(),
        forall|i: int| 0 <= i < em.len() ==> (#[trigger] em[i])@.len() == em_view(em)[i].len(),
        forall|i: int, j: int| 0 <= i < em.len() && 0 <= j < em[i]@.len() ==> em_view(em)[i][j] == (#[trigger] em[i]@[j]) as int,
        forall|i: int| 0 <= i < tr.len() ==> (#[trigger] tr[i])@.len() == tr_view(tr)[i].len(),
        forall|i: int, a: int| 0 <= i < tr.len() && 0 <= a < tr[i]@.len() ==> (#[trigger] tr[i]@[a])@.len() == tr_view(tr)[i][a].len(),
        forall|i: int, a: int, b: int|
            0 <= i < tr.len() && 0 <= a < tr[i]@.len() && 0 <= b < tr[i]@[a]@.len() ==> same_score(#[trigger] tr[i]@[a]@[b], tr_view(tr)[i][a][b]),
{
}

/// Best way into state `j` of step `i` from the scores `prev` of step `i - 1`.
fn relax_into(
    prev: &Vec<Option<u128>>,
    em: &Vec<Vec<u128>>,
    tr: &Vec<Vec<Vec<Option<u128>>>>,
    lo: usize,
    i: usize,
    j: usize,
) -> (r: Option<(u128, usize)>)
    requires
        tables_wf(em_view(em@), tr_view(tr@)),
        lo < i < em@.len(),
        j < em@[i as int]@.len(),
        prev@.len() == em@[i - 1]@.len(),
        forall|a: int| 0 <= a < prev@.len() ==> same_score(#[trigger] prev@[a], layer(em_view(em@), tr_view(tr@), lo as int, i - 1)[a]),
    ensures
        match (r, relax(layer(em_view(em@), tr_view(tr@), lo as int, i - 1), tr_view(tr@)[i - 1], j as int, prev@.len() as int)) {
            (Some(x), Some(y)) => x.0 as int == y.0 && x.1 as int == y.1,
            (None, None) => true,
            _ => false,
        },
{
    let ghost l = layer(em_view(em@), tr_view(tr@), lo as int, i - 1);
    proof {
        lemma_views(em@, tr@);
        lemma_layer_bound(em_view(em@), tr_view(tr@), lo as int, i - 1);
    }
    let row = &tr[i - 1];
    let mut best: Option<(u128, usize)> = None;
    let mut a: usize = 0;
    while a < prev.len()
        invariant
            tables_wf(em_view(em@), tr_view(tr@)),
            lo < i < em@.len(),
            j < em@[i as int]@.len(),
            row == tr@[i - 1],
            l == layer(em_view(em@), tr_view(tr@), lo as int, i - 1),
            prev@.len() == em@[i - 1]@.len(),
            forall|m: int| 0 <= m < prev@.len() ==> same_score(#[trigger] prev@[m], l[m]),
            forall|m: int| 0 <= m < em@[i - 1]@.len() && (#[trigger] l[m]) is Some ==> 0 <= l[m].unwrap() < (2 * (i - 1 - lo) + 1) * SCORE_BOUND,
            a <= prev@.len(),
            match (best, relax(l, tr_view(tr@)[i - 1], j as int, a as int)) {
                (Some(x), Some(y)) => x.0 as int == y.0 && x.1 as int == y.1,
                (None, None) => true,
                _ => false,
            },
        decreases prev@.len() - a,
    {
        assert(row@[a as int]@.len() == em@[i as int]@.len());
        match (prev[a], row[a][j]) {
            (Some(s), Some(c)) => {
                assert(tr_view(tr@)[i - 1][a as int][j as int] is Some);
                let v = s + c;
                match best {
                    None => {
                        best = Some((v, a));
                    },
                    Some(bv) => {
                        if v < bv.0 {
                            best = Some((v, a));
                        }
                    },
                }
            },
            _ => {},
        }
        a = a + 1;
    }
    best
}

/// Decodes the chain over steps `lo..hi`. Where some step after `lo` has no
/// state reachable from step `lo`, the first such step is the error;
/// otherwise the result holds one state index per step: the lowest-score
/// path, ties going to the lowest indices.
pub fn decode_chain(em: &Vec<Vec<u128>>, tr: &Vec<Vec<Vec<Option<u128>>>>, lo: usize, hi: usize) -> (r: Result<Vec<usize>, usize>)
    requires
        tables_wf(em_view(em@), tr_view(tr@)),
        lo < hi <= em@.len(),
    ensures
        match r {
            Ok(p) => first_dead(em_view(em@), tr_view(tr@), lo as int, lo + 1, hi as int) == hi
                && p@.len() == hi - lo
                && forall|k: int| 0 <= k < p@.len() ==> #[trigger] p@[k] as int == decoded(em_view(em@), tr_view(tr@), lo as int, hi as int)[k],
            Err(d) => first_dead(em_view(em@), tr_view(tr@), lo as int, lo + 1, hi as int) == d && lo < d < hi,
        },
{
    proof {
        lemma_views(em@, tr@);
    }
    let first = &em[lo];
    let mut cur: Vec<Option<u128>> = Vec::new();
    let mut j: usize = 0;
    while j < first.len()
        invariant
            lo < em@.len(),
            first == em@[lo as int],
            j <= first@.len(),
            cur@.len() == j,
            forall|m: int| 0 <= m < j ==> #[trigger] cur@[m] == Some(first@[m]),
        decreases first@.len() - j,
    {
        cur.push(Some(first[j]));
        j = j + 1;
    }
    let mut bps: Vec<Vec<usize>> = Vec::new();
    let mut i: usize = lo + 1;
    while i < hi
        invariant
            tables_wf(em_view(em@), tr_view(tr@)),
            lo < i <= hi <= em@.len(),
            cur@.len() == em@[i - 1]@.len(),
            forall|m: int| 0 <= m < cur@.len() ==> same_score(#[trigger] cur@[m], layer(em_view(em@), tr_view(tr@), lo as int, i - 1)[m]),
            bps@.len() == i - lo - 1,
            forall|k: int| #![trigger bps@[k]] 0 <= k < bps@.len() ==> bps@[k]@.len() == em@[lo + 1 + k]@.len(),
            forall|k: int, m: int|
                0 <= k < bps@.len() && 0 <= m < bps@[k]@.len() ==> #[trigger] bps@[k]@[m] as int == backptr(em_view(em@), tr_view(tr@), lo as int, lo + 1 + k, m),
            first_dead(em_view(em@), tr_view(tr@), lo as int, lo + 1, hi as int) == first_dead(em_view(em@), tr_view(tr@), lo as int, i as int, hi as int),
        decreases hi - i,
    {
        let ghost l = layer(em_view(em@), tr_view(tr@), lo as int, i as int);
        proof {
            lemma_layer_bound(em_view(em@), tr_view(tr@), lo as int, i as int);
        }
        let n = em[i].len();
        let mut next: Vec<Option<u128>> = Vec::new();
        let mut bp: Vec<usize> = Vec::new();
        let mut any_live = false;
        let mut j: usize = 0;
        while j < n
            invariant
                tables_wf(em_view(em@), tr_view(tr@)),
                lo < i < hi <= em@.len(),
                n == em@[i as int]@.len(),
                l == layer(em_view(em@), tr_view(tr@), lo as int, i as int),
                l.len() == n,
                forall|m: int| 0 <= m < n && (#[trigger] l[m]) is Some ==> 0 <= l[m].unwrap() < (2 * (i - lo) + 1) * SCORE_BOUND,
                cur@.len() == em@[i - 1]@.len(),
                forall|m: int| 0 <= m < cur@.len() ==> same_score(#[trigger] cur@[m], layer(em_view(em@), tr_view(tr@), lo as int, i - 1)[m]),
                j <= n,
                next@.len() == j,
                bp@.len() == j,
                forall|m: int| 0 <= m < j ==> same_score(#[trigger] next@[m], l[m]),
                forall|m: int| 0 <= m < j ==> #[trigger] bp@[m] as int == backptr(em_view(em@), tr_view(tr@), lo as int, i as int, m),
                any_live <==> exists|m: int| 0 <= m < j && (#[trigger] l[m]) is Some,
            decreases n - j,
        {
            let b = relax_into(&cur, em, tr, lo, i, j);
            match b {
                Some(x) => {
                    assert(l[j as int] is Some);
                    let v = x.0 + em[i][j];
                    next.push(Some(v));
                    bp.push(x.1);
                    any_live = true;
                },
                None => {
                    next.push(None);
                    bp.push(0);
                },
            }
            j = j + 1;
        }
        if !any_live {
            assert(!is_live(l));
            return Err(i);
        }
        assert(is_live(l));
        cur = next;
        bps.push(bp);
        i = i + 1;
    }
    assert(first_dead(em_view(em@), tr_view(tr@), lo as int, hi as int, hi as int) == hi);
    // Best state of the last step.
    let ghost last = layer(em_view(em@), tr_view(tr@), lo as int, hi - 1);
    let mut best: Option<(u128, usize)> = None;
    let mut k: usize = 0;
    while k < cur.len()
        invariant
            cur@.len() == last.len(),
            forall|m: int| 0 <= m < cur@.len() ==> same_score(#[trigger] cur@[m], last[m]),
            k <= cur@.len(),
            match (best, best_of(last, k as int)) {
                (Some(x), Some(y)) => x.0 as int == y.0 && x.1 as int == y.1,
                (None, None) => true,
                _ => false,
            },
        decreases cur@.len() - k,
    {
        match cur[k] {
            Some(v) => {
                match best {
                    None => {
                        best = Some((v, k));
                    },
                    Some(bv) => {
                        if v < bv.0 {
                            best = Some((v, k));
                        }
                    },
                }
            },
            None => {},
        }
        k = k + 1;
    }
    let mut state: usize = match best {
        Some(x) => x.1,
        None => 0,
    };
    proof {
        lemma_best_of(last, last.len() as int);
        lemma_layer_bound(em_view(em@), tr_view(tr@), lo as int, hi - 1);
    }
    let ghost path = decoded(em_view(em@), tr_view(tr@), lo as int, hi as int);
    proof {
        lemma_trace_back(em_view(em@), tr_view(tr@), lo as int, hi - 1, state as int);
    }
    // Follow the back-pointers from the last step down to `lo`.
    let mut out: Vec<usize> = Vec::new();
    let mut m: usize = 0;
    while m < hi - lo
        invariant
            out@.len() == m,
            m <= hi - lo,
        decreases hi - lo - m,
    {
        out.push(0);
        m = m + 1;
    }
    let mut step: usize = hi - 1;
    loop
        invariant
            tables_wf(em_view(em@), tr_view(tr@)),
            lo <= step < hi <= em@.len(),
            path == trace_back(em_view(em@), tr_view(tr@), lo as int, hi - 1, path[hi - 1 - lo]),
            path.len() == hi - lo,
            state as int == path[step - lo],
            out@.len() == hi - lo,
            forall|q: int| step - lo < q < hi - lo ==> #[trigger] out@[q] as int == path[q],
            forall|q: int| lo <= q < hi ==> 0 <= #[trigger] path[q - lo] < em@[q]@.len(),
            forall|q: int| lo < q < hi ==> path[q - 1 - lo] == backptr(em_view(em@), tr_view(tr@), lo as int, q, #[trigger] path[q - lo]),
            bps@.len() == hi - lo - 1,
            forall|q: int| #![trigger bps@[q]] 0 <= q < bps@.len() ==> bps@[q]@.len() == em@[lo + 1 + q]@.len(),
            forall|q: int, s: int|
                0 <= q < bps@.len() && 0 <= s < bps@[q]@.len() ==> #[trigger] bps@[q]@[s] as int == backptr(em_view(em@), tr_view(tr@), lo as int, lo + 1 + q, s),
        ensures
            out@.len() == path.len(),
            forall|q: int| 0 <= q < out@.len() ==> #[trigger] out@[q] as int == path[q],
        decreases step - lo,
    {
        out.set(step - lo, state);
        assert(forall|q: int| step - lo <= q < hi - lo ==> #[trigger] out@[q] as int == path[q]);
        if step == lo {
            break;
        }
        assert(0 <= path[step - lo] < em@[step as int]@.len());
        state = bps[step - lo - 1][state];
        step = step - 1;
    }
    Ok(out)
}

} // verus!
