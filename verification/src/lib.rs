//! Hyperdimensional computing core: packed 8192-bit hypervectors, their
//! algebra (bind, permute, bundle), text encoders, and the symbolic memory
//! structures built on top of them.

pub mod agent;
pub mod ast;
pub mod bits;
pub mod bubble;
pub mod bundle;
pub mod codec;
pub mod digest;
pub mod distance;
pub mod distil_gpt;
pub mod god_memory;
pub mod godnode;
pub mod hypervector;
pub mod permute;
pub mod prng;
pub mod store;
pub mod text;

use vstd::prelude::*;

verus! {

/// Number of bits in a hypervector.
pub const DIMS: usize = 8192;

/// Number of bytes in a packed hypervector.
pub const PACKED_BYTES: usize = DIMS / 8;

} // verus!
