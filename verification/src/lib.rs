//! Decoders for InfraTec `.irb` thermal-camera image files.
//!
//! Two independent encodings are supported: a proprietary binary layout with
//! a fixed magic header and fixed byte offsets, and a plain-text export
//! consisting of a `key=value` header block followed by a whitespace-delimited
//! numeric matrix.  Both paths produce a bounds-checked, row-major 2D grid.
//!
//! Sample values are kept in exact source form: the binary path exposes each
//! pixel as the bit pattern of its little-endian 32-bit IEEE-754 float (no
//! calibration is defined for that payload), and the text path exposes each
//! pixel as its normalized numeric token.

use vstd::prelude::*;

pub mod file;
pub mod image;
pub mod text;
pub mod utils;

verus! {

/// The shared taxonomy of decode failures used by all parsers.
///
/// Each variant carries structured payloads (actual/expected pairs, raw
/// bytes) rather than pre-formatted strings, so callers can branch on the
/// kind programmatically.
#[derive(Debug, PartialEq, Eq)]
pub enum Error {
    /// The first five bytes of a binary file did not match the magic
    /// sequence; carries the bytes actually observed.
    InvalidHeader([u8; 5]),
    /// A fixed-length string field held a non-null byte after its first
    /// null; carries the raw field bytes.
    InteriorNulByte(Vec<u8>),
    /// The length of an image buffer differed from `width * height`;
    /// carries the actual and the expected length.
    ImageLength(usize, usize),
    /// A data row held the wrong number of samples; carries the actual and
    /// the expected count.
    ImageWidth(usize, usize),
    /// The data section held the wrong number of rows; carries the actual
    /// and the expected count.
    ImageHeight(usize, usize),
    /// No `ImageWidth` declaration was found in a text header.
    MissingWidth,
    /// An `ImageWidth` declaration was found but no `ImageHeight`.
    MissingHeight,
    /// A header declaration line held no `=` sign; carries the line.
    MissingEqualsSign(Vec<u8>),
    /// A token could not be parsed as a number; carries the token after
    /// delimiter normalization.
    ParseNumeric(Vec<u8>),
    /// The input ended before the structure it should hold was complete.
    Io,
}

} // verus!
