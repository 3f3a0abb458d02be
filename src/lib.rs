//! Hidden-Markov-Model map matching: candidate selection, emission and
//! transition scoring, Viterbi decoding and route assembly over integer
//! distances and log-space integer scores.
//!
//! The road network stays outside the library: callers hand it the
//! candidates that the network found near each trace point, the
//! great-circle gaps between consecutive points and the route distances
//! between consecutive candidates (`model::MatchInput`). `matcher::map_match`
//! chooses one candidate per point; `route::assemble_route` then joins the
//! chosen candidates with the paths the network returns for them.

pub mod estimate;
pub mod matcher;
pub mod model;
pub mod probability;
pub mod route;
pub mod viterbi;
