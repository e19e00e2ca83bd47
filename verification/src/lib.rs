//! Cycle-based edge curvature of undirected weighted graphs.
//!
//! A graph is a square matrix of edge weights. From it the library derives
//!
//! * the adjacency view: which pairs of vertices are edges ([`adjacency`]),
//! * the simple cycles on three, four or five vertices, the *faces* of the
//!   graph ([`cycle`], [`algorithms`]),
//! * for every edge, the weights of the faces that it bounds and the edges
//!   that lie opposite to it in those faces ([`faces`], [`edge_index`]),
//! * for every edge, the operands of its curvature `|w| * (a + b - c)`, in the
//!   order in which the three sums add them up ([`curvature`]).
//!
//! Weights are IEEE-754 binary64 values carried as bit patterns ([`weight`]).
//! The library decides and selects; it never adds, divides or takes a root.
//! Where a sum of weights is needed, the weight of a face, the caller adds the
//! operands that the library hands out and hands the sum back.
//!
//! Cycles and indices can be written to lines of text and read back
//! ([`text`], [`lines`]); [`files`] tells which files hold the matrices of a
//! cohort and cuts a row of a matrix into its entries.

pub mod error;
pub mod weight;
pub mod graph;
pub mod adjacency;
pub mod cycle;
pub mod algorithms;
pub mod edge_index;
pub mod faces;
pub mod curvature;
pub mod text;
pub mod lines;
pub mod files;
