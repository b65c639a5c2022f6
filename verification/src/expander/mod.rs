//! The expander family: one module per key representation.

pub mod bitman;
pub mod bitvec;
pub mod hashonly;
pub mod set;
pub mod vec;
pub mod vechashonly;
