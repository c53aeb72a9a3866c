//! The error taxonomy of the codec.
//!
//! Every fallible operation returns one of these values; nothing in the
//! library panics.  The variants fall into four families:
//! parse errors (malformed WKT text or a bad coordinate token), format
//! errors (a WKB buffer of the wrong shape), conversion errors (a value
//! that the coordinate type cannot represent), and encoding errors (a
//! hex string that is not valid hex).

use vstd::prelude::*;

verus! {

/// The field a failing numeric conversion concerns.
#[derive(Debug, Clone, Copy, PartialEq, Eq, Structural)]
pub enum ConvField {
    /// The x coordinate of the offending point.
    CoordX,
    /// The y coordinate of the offending point.
    CoordY,
    /// A line string's point count, which must fit 32 bits.
    PointCount,
}

/// An error returned by a codec operation.
#[derive(Debug, Clone)]
pub enum WkError {
    /// WKT text does not match the `POINT (x y)` / `LINESTRING (...)` grammar.
    ParseMalformed,
    /// A WKT coordinate token is not a valid number; carries the token.
    ParseBadCoordinate(String),
    /// A WKB Point buffer does not hold exactly 21 bytes; carries the length seen.
    FormatWrongLength(usize),
    /// The leading WKB byte-order flag is neither 0 nor 1; carries the byte seen.
    FormatBadByteOrder(u8),
    /// The WKB geometry-type code does not match the decoder; carries the code seen.
    FormatTypeMismatch(u32),
    /// A WKB buffer ran out of bytes in the middle of a read.
    FormatTruncated,
    /// A coordinate (or the point count) cannot be represented in the
    /// target type.  Carries the field concerned and, when the failing
    /// value came off the wire, its raw bit pattern.
    ConversionUnrepresentable(ConvField, Option<u64>),
    /// A hex transport string is not valid hexadecimal.
    EncodingBadHex,
}

} // verus!
