//! Molecular formulas (`"H2O"`, `"[(2H2O.NaCl)3S.N]2-"`) parsed into per-element
//! atom counts, and counts rendered back to a canonical formula.
pub mod atom_counts;
pub mod batch;
pub mod components;
pub mod errors;
pub mod laws;
pub mod mf;
pub mod mf_parser;
pub mod model;
pub mod multipliers;
pub mod periodic_table;
pub mod util;
