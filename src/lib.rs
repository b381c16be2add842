//! Small covalent molecules as graphs of atoms, and their rendering in
//! condensed chemical-formula notation.

pub mod atom;
pub mod builder;
pub mod element;
pub mod location;
pub mod numeral;
pub mod tree;
pub mod chain;
pub mod compound;
pub mod configuration;
