//! Cost-aware extraction of one expression from an equality-saturation
//! graph: cycle detection over the class graph, hierarchical cost
//! propagation with shared-subexpression discounts, construction of the
//! integer program that selects one node per active class, and rebuilding of
//! the selected expression from a solved assignment.

pub mod graph;
pub mod cost;
pub mod order;
pub mod propagate;
pub mod cycles;
pub mod program;
pub mod extract;
pub mod lp_extractor;
pub mod feasible;
pub mod convergence;
pub mod rules;
pub mod assignment;
