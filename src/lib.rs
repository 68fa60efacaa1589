//! A reduced GOST R 34.11-94 compression function, its Magma-like block
//! cipher, and a meet-in-the-middle collision search against it.
//!
//! One "byte" of the real algorithm is scaled down to a two-bit symbol, so a
//! state is 64 bits, a cipher block 16 bits and a cipher key 64 bits.

pub mod packing;
pub mod magma;
pub mod gost_hash;
pub mod gost_collision;
pub mod input;
