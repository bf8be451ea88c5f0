//! The representation layer of a typed combinator language: algebraic values
//! and their canonical bit encoding, a self-delimiting code for positive
//! integers, and the Merkle roots that fingerprint types and programs.
pub mod bits;
pub mod hash;
pub mod merkle;
pub mod natural;
pub mod term;
pub mod value;
