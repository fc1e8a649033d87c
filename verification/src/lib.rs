//! Bit-level codec: reading and writing integer fields of arbitrary bit width,
//! not necessarily aligned to whole bytes, in either bit order.
//!
//! The core pieces are a bounded bit accumulator ([`BitQueue`]), two bit-order
//! policies ([`BigEndian`] and [`LittleEndian`]), a [`read::BitReader`] that
//! consumes bit fields from a byte buffer, and a [`write::BitWriter`] that
//! builds one, together with counting and recording variants of the writer.

pub mod bitseq;
pub mod bitqueue;
pub mod numeric;
pub mod read;
pub mod write;
pub mod laws;
pub mod huffman;

pub use bitqueue::BitQueue;
pub use huffman::ReadHuffmanTree;
pub use numeric::Numeric;
pub use numeric::SignedNumeric;
pub use read::BitReader;
pub use read::SeekFrom;
pub use write::BitCounter;
pub use write::BitRecorder;
pub use write::BitWrite;
pub use write::BitWriter;
pub use write::SignedValue;
pub use write::UnsignedValue;

use vstd::prelude::*;

verus! {

/// What can go wrong in a bit-level read or write.
///
/// The first two variants are input-validation errors, found before any
/// stream state changes; the others report on the stream itself.
#[derive(Clone, Copy, Debug, PartialEq, Eq, Structural)]
pub enum BitError {
    /// More bits were asked for than the target type holds.
    TooManyBits,
    /// The value does not fit in the requested number of bits.
    ValueOutOfRange,
    /// The stream ended before the request was satisfied.
    UnexpectedEnd,
    /// A seek resolved to a position outside the stream.
    InvalidOffset,
    /// A decode table entry was malformed.
    InvalidTable,
}

/// A stream's bit order: whether the first bit of a byte that goes on or off
/// the stream is its most significant or its least significant bit.
///
/// Implemented by the two zero-size markers [`BigEndian`] and [`LittleEndian`],
/// which select the policy at compile time.
pub trait Endianness: Sized {
    /// True if the first bit on the stream is the most significant one.
    spec fn msb_first() -> bool;

    /// Runtime view of the policy.
    fn is_msb_first() -> (b: bool)
        ensures
            b == Self::msb_first(),
    ;
}

/// Most-significant-bit-first bit order.
#[derive(Copy, Clone)]
pub struct BigEndian;

/// Shorthand for [`BigEndian`].
pub type BE = BigEndian;

impl Endianness for BigEndian {
    open spec fn msb_first() -> bool {
        true
    }

    fn is_msb_first() -> bool {
        true
    }
}

/// Least-significant-bit-first bit order.
#[derive(Copy, Clone)]
pub struct LittleEndian;

/// Shorthand for [`LittleEndian`].
pub type LE = LittleEndian;

impl Endianness for LittleEndian {
    open spec fn msb_first() -> bool {
        false
    }

    fn is_msb_first() -> bool {
        false
    }
}

} // verus!
