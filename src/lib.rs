//! Extraction of block-compressed game-asset bundles: a streaming block
//! decompressor, the container parser, hash-based name recovery and the
//! rules that turn recovered names into collision-free output names.

pub mod bundle;
pub mod bytes;
pub mod decompress;
pub mod names;
pub mod output;

use vstd::prelude::*;

verus! {

/// A structural fault in an input file. Every one of them is fatal.
#[derive(Debug, Clone, Copy, PartialEq, Eq, Structural)]
pub enum FormatError {
    /// The input ended in the middle of a field or a block.
    UnexpectedEnd,
    /// A block declared a compressed length above the block size.
    BlockTooLarge,
    /// A compressed block did not inflate to exactly one full block.
    BadBlock,
    /// A magic number differed from its fixed value.
    BadMagic,
    /// A reserved field was not zero.
    BadReserved,
    /// Bytes were left over after the last file record.
    TrailingData,
}

} // verus!
