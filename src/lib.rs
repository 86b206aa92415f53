//! Constraints of the external rounds of the Poseidon2 permutation, as an
//! algebraic intermediate representation over the BabyBear prime field.

pub mod field;
pub mod word;
pub mod sink;
pub mod columns;
pub mod selector;
pub mod air;
pub mod ops;
pub mod laws;
