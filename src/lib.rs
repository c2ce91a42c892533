//! Call-graph matching between two builds of a program: best-first propagation of a
//! one-to-one function correspondence from seed pairs, scored by edit distances between the
//! labelled call sequences of matched functions.
use vstd::prelude::*;

pub use belief_prop::belief_prop;
pub use object::{CodeMetadata, ObjectCode};

pub mod belief_prop;
pub mod graph;
pub mod heuristics;
pub mod levenshtein;
pub mod match_star;
pub mod object;
pub mod seeds;
pub mod tables;

verus! {

} // verus!
