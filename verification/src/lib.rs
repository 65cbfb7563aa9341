//! Bit-addressable containers packed into fixed-width blocks.
//!
//! A container of bits is read through [`Bits`], written through
//! [`BitsMut`], and grown through [`BitsPush`]. Plain vectors and slices of
//! blocks or of `bool` are such containers, and so are the growable
//! [`BitVec`](bit_vec::BitVec) and the views of a range of another container,
//! [`BitSlice`] and [`BitSliceMut`].

pub mod arrays;
pub mod bit_vec;
pub mod blocks;
pub mod laws;
pub mod prims;
pub mod range;
pub mod slice;
pub mod storage;
pub mod traits;

pub use range::BitRange;
pub use slice::{BitSlice, BitSliceMut};
pub use storage::{Address, BlockBits, BlockType};
pub use bit_vec::BitVec;
pub use traits::{BitSliceable, Bits, BitsMut, BitsPush};
