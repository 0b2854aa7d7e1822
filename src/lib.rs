//! Adjacency storage for an undirected graph without self-loops: a strictly
//! upper triangular matrix of flags over the vertices `0..size`, kept in a
//! fixed-size bit set.

mod bitset;
pub mod model;
pub mod matrix;

pub use matrix::{get_index_from_row_column, EdgesIterator, NeighboursIterator, StrictlyUpperTriangularMatrix};
