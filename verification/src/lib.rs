//! Inverts a 32-bit rotate-xor rolling checksum over byte strings of a
//! known length: constraints on the unknown string become linear equations
//! over GF(2), the system is row-reduced in place, and the solution space
//! comes back as an affine basis whose elements can all be enumerated.

pub mod bits;
pub mod constraints;
pub mod linalg;
pub mod utils;
