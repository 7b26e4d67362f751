//! A static order-0 Huffman codec: it compresses a byte stream into a
//! self-describing compressed image (a run-length frequency header followed
//! by a Huffman-coded bit stream ending in an end-of-stream mark) and
//! reconstructs the original bytes from such an image.

use vstd::prelude::*;

pub mod bitio;
pub mod codec;
pub mod header;
pub mod model;
pub mod tree;

verus! {

/// Why a decode or encode step could not finish.
#[derive(Clone, Copy, Debug, PartialEq, Eq, Structural)]
pub enum HuffError {
    /// The input ran out while more header bytes or payload bits were owed.
    UnexpectedEndOfStream,
    /// A generated code would not fit the bit pattern's storage width.
    CodeTooLong,
}

} // verus!
