//! A zero-knowledge permutation ("shuffle") argument expressed as a
//! rank-1 constraint system, with an independent checker of the flattened
//! weight-matrix identity.
#![allow(non_snake_case)]

pub mod field;
pub mod inspector;
pub mod enums;
pub mod util;
pub mod witness;
pub mod circuit;
pub mod perm_proof;
