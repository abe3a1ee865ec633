//! Modular arithmetic and the group law of the curve.

pub mod curve;
pub mod curve_laws;
pub mod fermat;
pub mod group;
pub mod field;
pub mod number_theory;
pub mod residues;
