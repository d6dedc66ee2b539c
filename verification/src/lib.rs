//! Shortest paths in weighted directed graphs, with every answer proved.
//!
//! Two kinds of query are answered.
//!
//! * From one start node to a target, over edges of non-negative weight: see
//!   [`graph`] for the adjacency-list store and what a shortest walk is,
//!   [`array_scan`] and [`priority_queue`] for the two solvers, and
//!   [`single_source`] for the interface that picks between them.
//! * Between all pairs of nodes, over edges whose weight may be negative:
//!   see [`matrix`] for the dense store, [`all_pairs`] for the distance
//!   matrix and the classification of a pair, and [`metric`] for what holds
//!   of the distances.
//!
//! [`test_case`] reads a graph and its queries from lines of text and writes
//! the answers; [`display`] shows a graph as text.
//!
//! The remaining modules hold the reasoning: [`frontier`] for the invariant
//! of the single-source solvers, [`min_queue`] for their queue, [`routes`]
//! and [`closure`] for walks through a matrix and the relaxation of it,
//! [`witness`] for ways to tell an answer without a solver, and [`text`] for
//! numbers and fields.

pub mod all_pairs;
pub mod array_scan;
pub mod closure;
pub mod display;
pub mod frontier;
pub mod graph;
pub mod matrix;
pub mod metric;
pub mod min_queue;
pub mod priority_queue;
pub mod routes;
pub mod single_source;
pub mod test_case;
pub mod text;
pub mod witness;
