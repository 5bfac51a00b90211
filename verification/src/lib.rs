//! Degree-of-freedom bookkeeping for frame and continuum finite-element models:
//! numbering of nodal DOFs, the element-to-global DOF map used in assembly,
//! the split of DOFs into free and prescribed ones, and the gather/scatter steps
//! that move values between the full and the reduced (free) system.
//!
//! The floating-point element matrices and the linear solve stay outside this
//! crate; everything here is index logic and is verified.

pub mod dofs;
pub mod partition;
pub mod transfer;
pub mod assembly;
