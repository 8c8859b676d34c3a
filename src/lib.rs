//! Degree and distance analysis of a directed graph: breadth-first shortest
//! distances, degree histograms and rankings, and statistics of the distances
//! between all reachable pairs of nodes.
use vstd::prelude::*;

pub mod graph;
pub mod links;
pub mod bfs;
pub mod degree;
pub mod distance;

verus! {

} // verus!
