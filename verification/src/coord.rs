//! The capability trait for coordinate types, and the two coordinate
//! types the library ships.
//!
//! A coordinate type must move to and from the 64-bit IEEE-754 wire
//! representation that WKB uses (given here as the raw bit pattern, a
//! `u64`), and to and from decimal text for WKT.  Both conversions may be
//! partial: a value may have no exact wire form, and a bit pattern or a
//! token may denote no value of the type.  The trait also demands, as
//! proof obligations on every implementation, that each conversion
//! round-trips on the values it accepts.

use vstd::prelude::*;

use crate::fbits::{
    int_of_wire, int_to_wire, lemma_int_of_wire_range, lemma_int_wire_round_trip,
    lemma_wire_int_round_trip, wire_of_int, wire_to_int, MAX_EXACT_INT, MIN_EXACT_INT,
    NEG_ZERO_BITS,
};
use crate::numtext::{
    i64_to_text, int_text, is_plain_num_char, lemma_int_text_shape, lemma_text_round_trip_i64,
    text_to_i64, text_to_i64_spec,
};
use vstd::arithmetic::power2::{lemma2_to64_rest, pow2};

verus! {

/// A coordinate type the codec can carry.
pub trait Coord: Sized + Copy {
    /// The IEEE-754 bit pattern this value is encoded as in WKB, if any.
    spec fn wire_opt(self) -> Option<u64>;

    /// The value a wire bit pattern decodes to, if any.
    spec fn of_wire_spec(w: u64) -> Option<Self>;

    /// The canonical decimal text of this value, if it has one.
    spec fn text_opt(self) -> Option<Seq<char>>;

    /// The value a text token parses to, if any.
    spec fn of_text_spec(t: Seq<char>) -> Option<Self>;

    /// Law: decoding an encoded wire pattern gives the value back.
    proof fn lemma_wire_round_trip(self)
        ensures
            self.wire_opt() matches Some(w) ==> Self::of_wire_spec(w) == Some(self),
    ;

    /// Law: parsing a value's canonical text gives the value back.
    proof fn lemma_text_round_trip(self)
        ensures
            self.text_opt() matches Some(t) ==> Self::of_text_spec(t) == Some(self),
    ;

    /// Law: canonical text is a nonempty run of sign and digit characters,
    /// so it never collides with WKT punctuation.
    proof fn lemma_text_shape(self)
        ensures
            self.text_opt() matches Some(t) ==> t.len() > 0 && (forall|i: int|
                0 <= i < t.len() ==> is_plain_num_char(t[i])),
    ;

    /// Encodes the value for the wire.
    fn to_wire(&self) -> (r: Option<u64>)
        ensures
            r == self.wire_opt(),
    ;

    /// Decodes a wire bit pattern.
    fn from_wire(w: u64) -> (r: Option<Self>)
        ensures
            r == Self::of_wire_spec(w),
    ;

    /// Formats the value as decimal text.
    fn to_text(&self) -> (r: Option<String>)
        ensures
            match r {
                Some(s) => self.text_opt() == Some(s@),
                None => self.text_opt() is None,
            },
    ;

    /// Parses a text token.
    fn from_text(s: &str) -> (r: Option<Self>)
        ensures
            r == Self::of_text_spec(s@),
    ;

    /// Decides equality of two coordinates.
    fn eq_c(&self, other: &Self) -> (r: bool)
        ensures
            r == (self == other),
    ;
}

/// A 64-bit IEEE-754 floating-point coordinate, held as its bit pattern.
///
/// Holding the bits rather than a float lets the codec state the wire
/// behaviour exactly: WKB carries precisely these eight bytes.  Text
/// support covers the integer-valued range `MIN_EXACT_INT ..= MAX_EXACT_INT`
/// (where the float's default decimal form is an integer); other values
/// have no canonical text here and WKT formatting reports a conversion
/// error for them.
#[derive(Debug, Clone, Copy, PartialEq, Eq, Structural)]
pub struct CoordF64 {
    pub bits: u64,
}

impl CoordF64 {
    /// Wraps a raw IEEE-754 bit pattern.
    pub fn from_bits(bits: u64) -> (c: CoordF64)
        ensures
            c.bits == bits,
    {
        CoordF64 { bits }
    }
}

/// Integer coordinates.  The wire form covers the contiguous exact
/// range `MIN_EXACT_INT ..= MAX_EXACT_INT`; the isolated exact
/// integers beyond it are deliberately outside the model (see
/// [`crate::fbits::MAX_EXACT_INT`]).  Text covers every `i64`.
impl Coord for i64 {
    open spec fn wire_opt(self) -> Option<u64> {
        if MIN_EXACT_INT <= self <= MAX_EXACT_INT {
            Some(wire_of_int(self as int))
        } else {
            None
        }
    }

    open spec fn of_wire_spec(w: u64) -> Option<i64> {
        match int_of_wire(w) {
            Some(v) => Some(v as i64),
            None => None,
        }
    }

    open spec fn text_opt(self) -> Option<Seq<char>> {
        Some(int_text(self as int))
    }

    open spec fn of_text_spec(t: Seq<char>) -> Option<i64> {
        text_to_i64_spec(t)
    }

    proof fn lemma_wire_round_trip(self) {
        lemma2_to64_rest();
        if MIN_EXACT_INT <= self <= MAX_EXACT_INT {
            lemma_int_wire_round_trip(self as int);
        }
    }

    proof fn lemma_text_round_trip(self) {
        lemma_text_round_trip_i64(self);
    }

    proof fn lemma_text_shape(self) {
        lemma_int_text_shape(self as int);
    }

    fn to_wire(&self) -> (r: Option<u64>) {
        int_to_wire(*self)
    }

    fn from_wire(w: u64) -> (r: Option<i64>) {
        proof {
            lemma2_to64_rest();
            if int_of_wire(w) is Some {
                lemma_int_of_wire_range(w);
            }
        }
        wire_to_int(w)
    }

    fn to_text(&self) -> (r: Option<String>) {
        Some(i64_to_text(*self))
    }

    fn from_text(s: &str) -> (r: Option<i64>) {
        text_to_i64(s)
    }

    fn eq_c(&self, other: &i64) -> (r: bool) {
        *self == *other
    }
}

impl Coord for CoordF64 {
    open spec fn wire_opt(self) -> Option<u64> {
        Some(self.bits)
    }

    open spec fn of_wire_spec(w: u64) -> Option<CoordF64> {
        Some(CoordF64 { bits: w })
    }

    open spec fn text_opt(self) -> Option<Seq<char>> {
        if self.bits == NEG_ZERO_BITS {
            Some(seq!['-', '0'])
        } else {
            match int_of_wire(self.bits) {
                Some(v) => Some(int_text(v)),
                None => None,
            }
        }
    }

    open spec fn of_text_spec(t: Seq<char>) -> Option<CoordF64> {
        match text_to_i64_spec(t) {
            Some(v) => if MIN_EXACT_INT <= v <= MAX_EXACT_INT {
                Some(
                    CoordF64 {
                        bits: if v == 0 && t[0] == '-' {
                            NEG_ZERO_BITS
                        } else {
                            wire_of_int(v as int)
                        },
                    },
                )
            } else {
                None
            },
            None => None,
        }
    }

    proof fn lemma_wire_round_trip(self) {
    }

    proof fn lemma_text_round_trip(self) {
        lemma2_to64_rest();
        if self.bits == NEG_ZERO_BITS {
            let t = seq!['-', '0'];
            assert(t.skip(1) =~= seq!['0']);
            assert(seq!['0'].drop_last() =~= Seq::<char>::empty());
            assert(crate::numtext::digits_val(Seq::<char>::empty()) == 0);
            assert(crate::numtext::digit_val('0') == 0);
            assert(seq!['0'].last() == '0');
            assert(crate::numtext::digits_val(seq!['0']) == crate::numtext::digits_val(
                seq!['0'].drop_last(),
            ) * 10 + crate::numtext::digit_val(seq!['0'].last()));
            assert(crate::numtext::all_digits(seq!['0']));
            assert(text_to_i64_spec(t) == Some(0i64));
        } else {
            match int_of_wire(self.bits) {
                Some(v) => {
                    lemma_int_of_wire_range(self.bits);
                    lemma_text_round_trip_i64(v as i64);
                    lemma_wire_int_round_trip(self.bits);
                    let t = int_text(v);
                    if v < 0 {
                        assert(t[0] == '-');
                    } else {
                        crate::numtext::lemma_int_text_shape(v);
                        assert(t[0] != '-');
                    }
                },
                None => {},
            }
        }
    }

    proof fn lemma_text_shape(self) {
        if self.bits == NEG_ZERO_BITS {
            assert(is_plain_num_char('-') && is_plain_num_char('0'));
        } else {
            match int_of_wire(self.bits) {
                Some(v) => {
                    lemma_int_text_shape(v);
                },
                None => {},
            }
        }
    }

    fn to_wire(&self) -> (r: Option<u64>) {
        Some(self.bits)
    }

    fn from_wire(w: u64) -> (r: Option<CoordF64>) {
        Some(CoordF64 { bits: w })
    }

    fn to_text(&self) -> (r: Option<String>) {
        if self.bits == NEG_ZERO_BITS {
            proof {
                reveal_strlit("-0");
                assert("-0"@ =~= seq!['-', '0']);
            }
            Some(String::from_str("-0"))
        } else {
            match wire_to_int(self.bits) {
                Some(v) => Some(i64_to_text(v)),
                None => None,
            }
        }
    }

    fn from_text(s: &str) -> (r: Option<CoordF64>) {
        match text_to_i64(s) {
            None => None,
            Some(v) => {
                if v < MIN_EXACT_INT || v > MAX_EXACT_INT {
                    return None;
                }
                let len = s.unicode_len();
                assert(len > 0);
                if v == 0 && s.get_char(0) == '-' {
                    Some(CoordF64 { bits: NEG_ZERO_BITS })
                } else {
                    match int_to_wire(v) {
                        Some(w) => Some(CoordF64 { bits: w }),
                        None => {
                            proof {
                                assert(false);
                            }
                            None
                        },
                    }
                }
            },
        }
    }

    fn eq_c(&self, other: &CoordF64) -> (r: bool) {
        self.bits == other.bits
    }
}

} // verus!
