//! Best-first (A*) path search over a grid-like space that the caller
//! describes through the [`PathGenerator`] capability.
//!
//! [`AStar::run`] keeps a frontier of discovered nodes, expands the one with
//! the smallest estimated total cost (the one that has waited longest among
//! equals), passes over neighbours whose position has already been expanded,
//! and ends as soon as a neighbour that it generates meets the target.
//!
//! Three choices are fixed and stated in the contracts:
//! - the start itself is never tested against the target, so every route
//!   that is handed out has at least one step;
//! - a position may wait in the frontier more than once and is then expanded
//!   more than once, but it is never entered again once it has been expanded;
//! - costs that do not fit in a `usize` are held as `usize::MAX`.
//!
//! [`terrain`] describes a search space as mathematics, [`generator`] says
//! when such a terrain describes a generator, [`model`] states the search
//! one expansion at a time, and [`exclusive`] shows when a search expands no
//! position twice.
mod cheapest;
mod covering;
pub mod exclusive;
mod frontier;
pub mod generator;
pub mod model;
mod node;
mod progress;
pub mod search;
mod stages;
pub mod terrain;

pub use generator::PathGenerator;
pub use search::AStar;
