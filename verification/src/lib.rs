//! Shortest paths from one source over a dense adjacency matrix.
//!
//! `structure` holds the matrix traits, the borrowed `Graph` and the four
//! queries; `model` holds the mathematical description that their contracts
//! speak of; `laws` holds theorems about that description.
pub mod laws;
pub mod model;
pub mod structure;
