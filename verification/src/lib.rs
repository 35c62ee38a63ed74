//! A compact binary codec for sequences of 4-valued directional symbols.
//!
//! Each [`direction::Direction`] occupies exactly two bits, so a byte holds a
//! group of up to four of them. [`codec::pack_values`] packs a sequence of
//! directions into such bytes together with a count saying how many directions
//! the final byte holds; [`codec::unpack_values`] reverses the transformation.

pub mod codec;
pub mod direction;
pub mod pos;
