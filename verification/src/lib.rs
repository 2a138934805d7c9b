//! Computational topology over verified combinatorial structures.

pub mod groups;
pub mod rings;
pub mod boolean;
pub mod modular;
pub mod graph;
pub mod error;
pub mod simplex;
pub mod cube;
pub mod complex;
pub mod cubical;
pub mod cell_complex;
pub mod cubical_laws;
pub mod chain;
pub mod chain_laws;
pub mod matrix;
pub mod span;
pub mod rank_laws;
pub mod homology;
pub mod filtration;
pub mod lattice;
pub mod sheaf;
pub mod linear_programming;
