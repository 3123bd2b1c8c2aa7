//! Verified building blocks of a street network generator: graphs of
//! connected nodes, identifiers and the numeric and enumerated values that
//! the growth rules work with.

pub mod base;
pub mod container;
pub mod model;
pub mod system;
pub mod traits;
