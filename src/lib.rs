//! Hamiltonian paths in tournament graphs, built by incremental insertion.

pub mod perm_ll;
pub mod tngraph;
pub mod fastpath;
