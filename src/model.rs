use vstd::prelude::*;

verus! {

/// Default cutoff for candidate discovery: 200 m, in millimetres.
pub const DEFAULT_SEARCH_RADIUS: u32 = 200_000;

/// Noise scale used when it cannot be estimated from the trace (millimetres).
pub const DEFAULT_SIGMA: u32 = 4_070;

/// Transition scale used when it cannot be estimated from the trace (millimetres).
pub const DEFAULT_BETA: u32 = 3_000;

/// A geographic coordinate in units of 1e-7 degree.
#[derive(Clone, Copy, Debug, PartialEq, Eq, Structural)]
pub struct Coord {
    pub lat: i64,
    pub lon: i64,
}

/// A road segment near a trace point: the segment's id, the projection of
/// the point onto the segment's geometry and the distance (millimetres)
/// between the point and that projection.
#[derive(Clone, Copy, Debug, PartialEq, Eq, Structural)]
pub struct Candidate {
    pub segment: u64,
    pub projected: Coord,
    pub distance: u32,
}

/// What the decoder does at a step that no live candidate of the previous
/// step can reach.
#[derive(Clone, Copy, Debug, PartialEq, Eq, Structural)]
pub enum StepPolicy {
    /// Start a fresh chain at that step, seeded by its own emission scores.
    RestartChain,
    /// Report `MatchError::DisconnectedChain` for that step.
    FailFast,
}

/// Matching configuration.
#[derive(Clone, Copy, Debug, PartialEq, Eq, Structural)]
pub struct Config {
    /// Candidate discovery cutoff, in millimetres.
    pub search_radius: u32,
    /// Fixed noise scale bypassing the median estimator.
    pub sigma_override: Option<u32>,
    /// Fixed transition scale bypassing the median estimator.
    pub beta_override: Option<u32>,
    pub unreachable_step_policy: StepPolicy,
}

impl Config {
    pub fn new() -> (c: Config)
        ensures
            c.search_radius == DEFAULT_SEARCH_RADIUS,
            c.sigma_override.is_none(),
            c.beta_override.is_none(),
            c.unreachable_step_policy == StepPolicy::RestartChain,
    {
        Config {
            search_radius: DEFAULT_SEARCH_RADIUS,
            sigma_override: None,
            beta_override: None,
            unreachable_step_policy: StepPolicy::RestartChain,
        }
    }
}

/// Why a match failed.
#[derive(Clone, Copy, Debug, PartialEq, Eq, Structural)]
pub enum MatchError {
    /// The trace has no point.
    EmptyTrace,
    /// The trace point with this index has no candidate segment.
    NoCandidates(usize),
    /// No candidate of this step is reachable from the previous step.
    DisconnectedChain(usize),
    /// No route joins these two consecutive chosen segments.
    UnreachableRoute(u64, u64),
    /// Too few samples to estimate a model parameter.
    DegenerateParameters,
}

/// What the road network reported about a trace: the candidates of each
/// point, the great-circle distance between consecutive points (`gaps[i]`
/// joins points `i` and `i + 1`), and the route distance from each candidate
/// of a point to each candidate of the next one (`routes[i][a][b]`, `None`
/// where no route exists). All distances are in millimetres.
#[derive(Clone, Debug)]
pub struct MatchInput {
    pub candidates: Vec<Vec<Candidate>>,
    pub gaps: Vec<u32>,
    pub routes: Vec<Vec<Vec<Option<u32>>>>,
}

impl MatchInput {
    /// The tables have the shapes that the trace's candidate lists give them.
    pub open spec fn wf(&self) -> bool {
        &&& self.gaps@.len() == self.routes@.len()
        &&& (self.candidates@.len() == 0 ==> self.gaps@.len() == 0)
        &&& (self.candidates@.len() > 0 ==> self.gaps@.len() + 1 == self.candidates@.len())
        &&& forall|i: int|
            #![trigger self.routes@[i]]
            0 <= i < self.routes@.len() ==> {
                &&& self.routes@[i]@.len() == self.candidates@[i]@.len()
                &&& forall|a: int|
                    #![trigger self.routes@[i]@[a]]
                    0 <= a < self.routes@[i]@.len() ==> self.routes@[i]@[a]@.len()
                        == self.candidates@[i + 1]@.len()
            }
    }
}

} // verus!
