//! Exact planning of production networks.
//!
//! A production network is a directed graph: each node is a resource with the
//! output rate of one production unit, each edge says how much of its source
//! one unit of its target consumes. Given the net output rates that are
//! demanded, the planner states one conservation equation per resource and
//! solves the resulting square linear system exactly, over the rationals.

pub mod bigint;
pub mod bignat;
pub mod divisibility;
pub mod elimination;
pub mod graph;
pub mod linear;
pub mod planner;
pub mod solver;
pub mod store;
