//! Parsing of fixed-column PDB text into a `Structure -> Chain -> Residue -> Atom` tree.
//!
//! Numeric columns are read as fixed-point decimals, so every digit of the input is kept.
pub mod atom;
pub mod builder;
pub mod chain;
pub mod decode;
pub mod error;
pub mod parser;
pub mod residue;
pub mod slots;
pub mod structure;
pub mod unit_cell;
