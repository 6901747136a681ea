//! The sizes and bit patterns that the heap is built on.
use vstd::prelude::*;

verus! {

/// A block is 2 to the power `BLOCK_SIZE_BITS` bytes.
pub const BLOCK_SIZE_BITS: usize = 15;

/// The size of a block in bytes: 2 to the power [`BLOCK_SIZE_BITS`].
pub const BLOCK_SIZE: usize = 32768;

/// A line is 2 to the power `LINE_SIZE_BITS` bytes.
pub const LINE_SIZE_BITS: usize = 7;

/// The size of a line in bytes: 2 to the power [`LINE_SIZE_BITS`].
pub const LINE_SIZE: usize = 128;

/// The number of lines in a block.
pub const LINE_COUNT: usize = 256;

/// Clears the low bits of an address so that it is a multiple of the size
/// of a machine word (8 bytes on the 64-bit targets this library is built
/// for).
pub const ALIGN_MASK: usize = !7usize;

/// The low bit of a tagged word.
pub const TAG_MASK: usize = 0x1;

/// The tag of a word that holds the address of an object.
pub const TAG_OBJECT: usize = 0x0;

/// The tag of a word that holds a number.
pub const TAG_NUMBER: usize = 0x1;

/// Clears the tag bit of a tagged word.
pub const PTR_MASK: usize = !TAG_MASK;

} // verus!
