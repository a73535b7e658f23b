//! Arbitrary-precision unsigned integers stored as little-endian 64-bit limbs,
//! with carry- and borrow-propagating addition and subtraction.

pub mod biguint;
pub mod limbs;

pub use biguint::BigUint;
