//! The exact core of an orthogonal diagram layout: the obstacle grid and its
//! breadth-first route search, the router that joins two anchors through it,
//! port-id bookkeeping for edge ends, and the connectivity grouping used to seed
//! node placement.
use vstd::prelude::*;

pub mod cluster;
pub mod grid;
pub mod ports;
pub mod route;
pub mod types;

verus! {

} // verus!
