//! A bidirectional codec between the well-known text (WKT) and well-known
//! binary (WKB) geometry notations, for two geometry kinds: `Point` (one
//! coordinate pair) and `LineString` (an ordered sequence of points).
//!
//! Coordinates are generic over the [`coord::Coord`] trait, which captures
//! the capabilities the codec needs: conversion to and from the 64-bit
//! IEEE-754 wire representation that WKB uses, and conversion to and from
//! decimal text for WKT.  The library provides two coordinate types:
//! `i64` (integer coordinates) and [`coord::CoordF64`] (a 64-bit float
//! held as its IEEE-754 bit pattern, so that the bit-exact wire behaviour
//! is stated and proved without floating-point arithmetic).

use vstd::prelude::*;

pub mod coord;
pub mod errors;
pub mod fbits;
pub mod hexstr;
pub mod laws;
pub mod numtext;
pub mod wkb;
pub mod wkt;

verus! {

/// A single coordinate pair.
#[derive(Debug, Clone, Copy, PartialEq, Eq, Structural)]
pub struct Point<T> {
    pub x: T,
    pub y: T,
}

/// An ordered sequence of points; the insertion order is the line's path.
/// An empty `LineString` is a valid, if degenerate, value.
#[derive(Debug)]
pub struct LineString<T> {
    pub points: Vec<Point<T>>,
}

impl<T> Point<T> {
    /// Builds the point with coordinates `x` and `y`.
    pub fn new(x: T, y: T) -> (p: Point<T>)
        ensures
            p == (Point { x, y }),
    {
        Point { x, y }
    }
}

impl<T> LineString<T> {
    /// Builds a line with no points.
    pub fn new_empty() -> (l: LineString<T>)
        ensures
            l.points@ == Seq::<Point<T>>::empty(),
    {
        let points: Vec<Point<T>> = Vec::new();
        LineString { points }
    }

    /// Appends one point at the end of the line.
    pub fn push_point(&mut self, newpoint: Point<T>)
        ensures
            final(self).points@ == old(self).points@.push(newpoint),
    {
        self.points.push(newpoint);
    }

    /// The number of points in the line.
    pub fn npoints(&self) -> (n: usize)
        ensures
            n == self.points@.len(),
    {
        self.points.len()
    }
}

impl<T: coord::Coord> Point<T> {
    /// The `"x y"` text of the coordinates, as WKT shows them, if both
    /// have canonical text.
    pub fn point_coords(&self) -> (r: Option<String>)
        ensures
            match (self.x.text_opt(), self.y.text_opt()) {
                (Some(xt), Some(yt)) => r matches Some(s) && s@ == xt + seq![' '] + yt,
                _ => r is None,
            },
    {
        let xs = match self.x.to_text() {
            Some(s) => s,
            None => {
                return None;
            },
        };
        let ys = match self.y.to_text() {
            Some(s) => s,
            None => {
                return None;
            },
        };
        let mut out = xs;
        proof {
            reveal_strlit(" ");
        }
        out.append(" ");
        out.append(ys.as_str());
        Some(out)
    }
}

impl<T: coord::Coord> PartialEq for LineString<T> {
    fn eq(&self, other: &LineString<T>) -> (r: bool)
        ensures
            r == (self.points@ == other.points@),
    {
        if self.points.len() != other.points.len() {
            assert(self.points@.len() != other.points@.len());
            return false;
        }
        let n = self.points.len();
        let mut i: usize = 0;
        while i < n
            invariant
                n == self.points@.len() == other.points@.len(),
                0 <= i <= n,
                forall|j: int| 0 <= j < i ==> self.points@[j] == other.points@[j],
            decreases n - i,
        {
            let same = self.points[i].x.eq_c(&other.points[i].x) && self.points[i].y.eq_c(
                &other.points[i].y,
            );
            if !same {
                assert(self.points@[i as int] != other.points@[i as int]);
                assert(self.points@ != other.points@);
                return false;
            }
            assert(self.points@[i as int] == other.points@[i as int]);
            i += 1;
        }
        proof {
            assert(self.points@ =~= other.points@);
        }
        true
    }
}

impl<T: coord::Coord> vstd::std_specs::cmp::PartialEqSpecImpl for LineString<T> {
    open spec fn obeys_eq_spec() -> bool {
        true
    }

    open spec fn eq_spec(&self, other: &LineString<T>) -> bool {
        self.points@ == other.points@
    }
}

/// The codec interface both geometry kinds offer: WKT text, WKB bytes,
/// and the hex transport over WKB.
///
/// The spec functions model each direction: `wkt_ok` / `wkb_ok` give
/// the exact text or bytes a value encodes to (or `None` when a
/// coordinate cannot be represented), and `wkt_parses_to` /
/// `wkb_parses_to` say which value an input decodes to, as a predicate
/// over the result.  The two proof obligations make every
/// implementation's decoder invert its encoder.
pub trait WKGeom: Sized {
    /// Structural sameness of two geometry values.
    spec fn same(&self, other: &Self) -> bool;

    /// The text this value formats to, if every coordinate has one.
    spec fn wkt_ok(&self) -> Option<Seq<char>>;

    /// The bytes this value encodes to, if every coordinate has a wire
    /// form.
    spec fn wkb_ok(&self) -> Option<Seq<u8>>;

    /// Does this text parse as a geometry of this kind?
    spec fn wkt_parses(t: Seq<char>) -> bool;

    /// Does this text parse, namely to `g`?
    spec fn wkt_parses_to(t: Seq<char>, g: &Self) -> bool;

    /// Does this buffer decode as a geometry of this kind?
    spec fn wkb_parses(b: Seq<u8>) -> bool;

    /// Does this buffer decode, namely to `g`?
    spec fn wkb_parses_to(b: Seq<u8>, g: &Self) -> bool;

    /// The error a failing WKB decode returns: the frame error of the
    /// buffer, or the conversion error when the frame reads but a wire
    /// coordinate has no value in the coordinate type.
    spec fn wkb_err_of(b: Seq<u8>) -> errors::WkError;

    /// For a failing WKT parse, the offending coordinate token when
    /// the grammar matched and a token failed numeric parsing; `None`
    /// when the text itself is malformed.
    spec fn wkt_err_token(t: Seq<char>) -> Option<Seq<char>>;

    /// The conversion error a failing WKT format returns: it names the
    /// first coordinate with no canonical text.
    spec fn wkt_enc_err(&self) -> errors::WkError;

    /// The conversion error a failing WKB encode returns: it names the
    /// first coordinate with no wire form, or the point count.
    spec fn wkb_enc_err(&self) -> errors::WkError;

    /// Law: a value's own encoding decodes, and only back to the value.
    proof fn lemma_wkb_round_trip(&self, other: &Self)
        ensures
            self.wkb_ok() matches Some(b) ==> Self::wkb_parses(b) && (Self::wkb_parses_to(b, other)
                ==> self.same(other)),
    ;

    /// Law: parsing is unambiguous; two parses of one text are the
    /// same geometry.  (The full text round trips, parsing a formatted
    /// geometry back to itself, stand in
    /// [`laws::lemma_wkt_point_round_trip`] and
    /// [`laws::lemma_wkt_line_round_trip`]; they are not obligations
    /// here because a formatted empty line string deliberately does
    /// not re-parse.)
    proof fn lemma_wkt_parse_unambiguous(t: Seq<char>, g1: &Self, g2: &Self)
        ensures
            Self::wkt_parses_to(t, g1) && Self::wkt_parses_to(t, g2) ==> g1.same(g2),
    ;

    /// Formats the value as WKT.
    fn to_wkt(&self) -> (r: Result<String, errors::WkError>)
        ensures
            match self.wkt_ok() {
                Some(t) => r matches Ok(s) && s@ == t,
                None => r matches Err(e) && e == self.wkt_enc_err(),
            },
    ;

    /// Parses a WKT text.  A failing parse names the first offending
    /// coordinate token, or reports the text as malformed.
    fn from_wkt(wkt: &str) -> (r: Result<Self, errors::WkError>)
        ensures
            Self::wkt_parses(wkt@) ==> (r matches Ok(g) && Self::wkt_parses_to(wkt@, &g)),
            !Self::wkt_parses(wkt@) ==> (match Self::wkt_err_token(wkt@) {
                Some(tok) => r matches Err(e) && (e matches errors::WkError::ParseBadCoordinate(bt)
                    && bt@ == tok),
                None => r matches Err(e) && e == errors::WkError::ParseMalformed,
            }),
    ;

    /// Encodes the value as WKB bytes.
    fn to_wkb(&self) -> (r: Result<Vec<u8>, errors::WkError>)
        ensures
            match self.wkb_ok() {
                Some(b) => r matches Ok(v) && v@ == b,
                None => r matches Err(e) && e == self.wkb_enc_err(),
            },
    ;

    /// Decodes a WKB buffer.  A failing decode returns exactly the
    /// error `wkb_err_of` assigns to the buffer.
    fn from_wkb(input: Vec<u8>) -> (r: Result<Self, errors::WkError>)
        ensures
            Self::wkb_parses(input@) ==> (r matches Ok(g) && Self::wkb_parses_to(input@, &g)),
            !Self::wkb_parses(input@) ==> (r matches Err(e) && e == Self::wkb_err_of(input@)),
    ;

    /// Encodes the value as the lowercase hex text of its WKB bytes.
    fn to_wkb_hexstring(&self) -> (r: Result<String, errors::WkError>)
        ensures
            match self.wkb_ok() {
                Some(b) => r matches Ok(s) && s@ == hexstr::bytes_to_hex(b),
                None => r matches Err(e) && e == self.wkb_enc_err(),
            },
    ;

    /// Decodes a hex string holding WKB bytes.
    fn from_wkb_hexstring(input: String) -> (r: Result<Self, errors::WkError>)
        ensures
            match hexstr::hex_to_bytes(input@) {
                Some(b) => {
                    &&& Self::wkb_parses(b) ==> (r matches Ok(g) && Self::wkb_parses_to(b, &g))
                    &&& !Self::wkb_parses(b) ==> (r matches Err(e) && e == Self::wkb_err_of(b))
                },
                None => r matches Err(e) && e == errors::WkError::EncodingBadHex,
            },
    ;
}

impl<T: coord::Coord> WKGeom for Point<T> {
    open spec fn same(&self, other: &Self) -> bool {
        self == other
    }

    open spec fn wkt_ok(&self) -> Option<Seq<char>> {
        match (self.x.text_opt(), self.y.text_opt()) {
            (Some(xt), Some(yt)) => Some(wkt::wkt_point_text(xt, yt)),
            _ => None,
        }
    }

    open spec fn wkb_ok(&self) -> Option<Seq<u8>> {
        wkb::point_wkb_ok(*self)
    }

    open spec fn wkt_parses(t: Seq<char>) -> bool {
        wkt::wkt_point_tokens(t) matches Some((xt, yt)) && T::of_text_spec(xt) is Some
            && T::of_text_spec(yt) is Some
    }

    open spec fn wkt_parses_to(t: Seq<char>, g: &Self) -> bool {
        Self::wkt_parses(t) && (wkt::wkt_point_tokens(t) matches Some((xt, yt)) && g.x
            == T::of_text_spec(xt)->Some_0 && g.y == T::of_text_spec(yt)->Some_0)
    }

    open spec fn wkb_parses(b: Seq<u8>) -> bool {
        wkb::parse_wkb_point_frame(b) matches Ok((xw, yw)) && T::of_wire_spec(xw) is Some
            && T::of_wire_spec(yw) is Some
    }

    open spec fn wkb_parses_to(b: Seq<u8>, g: &Self) -> bool {
        Self::wkb_parses(b) && (wkb::parse_wkb_point_frame(b) matches Ok((xw, yw)) && g.x
            == T::of_wire_spec(xw)->Some_0 && g.y == T::of_wire_spec(yw)->Some_0)
    }

    open spec fn wkb_err_of(b: Seq<u8>) -> errors::WkError {
        match wkb::parse_wkb_point_frame(b) {
            Err(e) => e,
            Ok((xw, yw)) => if T::of_wire_spec(xw) is None {
                errors::WkError::ConversionUnrepresentable(errors::ConvField::CoordX, Some(xw))
            } else {
                errors::WkError::ConversionUnrepresentable(errors::ConvField::CoordY, Some(yw))
            },
        }
    }

    open spec fn wkt_err_token(t: Seq<char>) -> Option<Seq<char>> {
        match wkt::wkt_point_tokens(t) {
            None => None,
            Some((xt, yt)) => if T::of_text_spec(xt) is None {
                Some(xt)
            } else if T::of_text_spec(yt) is None {
                Some(yt)
            } else {
                None
            },
        }
    }

    open spec fn wkt_enc_err(&self) -> errors::WkError {
        if self.x.text_opt() is None {
            errors::WkError::ConversionUnrepresentable(errors::ConvField::CoordX, None)
        } else {
            errors::WkError::ConversionUnrepresentable(errors::ConvField::CoordY, None)
        }
    }

    open spec fn wkb_enc_err(&self) -> errors::WkError {
        if self.x.wire_opt() is None {
            errors::WkError::ConversionUnrepresentable(errors::ConvField::CoordX, None)
        } else {
            errors::WkError::ConversionUnrepresentable(errors::ConvField::CoordY, None)
        }
    }

    proof fn lemma_wkb_round_trip(&self, other: &Self) {
        if self.wkb_ok() is Some {
            let xw = self.x.wire_opt()->Some_0;
            let yw = self.y.wire_opt()->Some_0;
            laws::lemma_point_frame_round_trip(xw, yw);
            self.x.lemma_wire_round_trip();
            self.y.lemma_wire_round_trip();
        }
    }

    proof fn lemma_wkt_parse_unambiguous(t: Seq<char>, g1: &Self, g2: &Self) {
    }

    fn to_wkt(&self) -> (r: Result<String, errors::WkError>) {
        wkt::point_to_wkt(self)
    }

    fn from_wkt(s: &str) -> (r: Result<Self, errors::WkError>) {
        wkt::point_from_wkt(s)
    }

    fn to_wkb(&self) -> (r: Result<Vec<u8>, errors::WkError>) {
        wkb::point_to_wkb(self)
    }

    fn from_wkb(input: Vec<u8>) -> (r: Result<Self, errors::WkError>) {
        wkb::point_from_wkb(input)
    }

    fn to_wkb_hexstring(&self) -> (r: Result<String, errors::WkError>) {
        match wkb::point_to_wkb(self) {
            Ok(v) => Ok(hexstr::encode_hex(&v)),
            Err(e) => Err(e),
        }
    }

    fn from_wkb_hexstring(input: String) -> (r: Result<Self, errors::WkError>) {
        match hexstr::decode_hex(input.as_str()) {
            Some(v) => wkb::point_from_wkb(v),
            None => Err(errors::WkError::EncodingBadHex),
        }
    }
}

impl<T: coord::Coord> WKGeom for LineString<T> {
    open spec fn same(&self, other: &Self) -> bool {
        self.points@ == other.points@
    }

    open spec fn wkt_ok(&self) -> Option<Seq<char>> {
        if wkt::all_texts_ok(self.points@) {
            Some(wkt::wkt_line_text(wkt::point_texts(self.points@)))
        } else {
            None
        }
    }

    open spec fn wkb_ok(&self) -> Option<Seq<u8>> {
        wkb::line_wkb_ok(self.points@)
    }

    open spec fn wkt_parses(t: Seq<char>) -> bool {
        wkt::wkt_line_tokens(t) matches Some(toks) && wkt::first_bad_token::<T>(toks) is None
    }

    open spec fn wkt_parses_to(t: Seq<char>, g: &Self) -> bool {
        Self::wkt_parses(t) && (wkt::wkt_line_tokens(t) matches Some(toks) && g.points@.len()
            == toks.len() && (forall|i: int|
            0 <= i < toks.len() ==> (#[trigger] g.points@[i]) == (Point {
                x: T::of_text_spec(toks[i].0)->Some_0,
                y: T::of_text_spec(toks[i].1)->Some_0,
            })))
    }

    open spec fn wkb_parses(b: Seq<u8>) -> bool {
        wkb::parse_wkb_line_frame(b) matches Ok(ws) && (forall|i: int|
            0 <= i < ws.len() ==> T::of_wire_spec((#[trigger] ws[i]).0) is Some && T::of_wire_spec(
                ws[i].1,
            ) is Some)
    }

    open spec fn wkb_parses_to(b: Seq<u8>, g: &Self) -> bool {
        Self::wkb_parses(b) && (wkb::parse_wkb_line_frame(b) matches Ok(ws) && g.points@.len()
            == ws.len() && (forall|i: int|
            0 <= i < ws.len() ==> (#[trigger] g.points@[i]) == (Point {
                x: T::of_wire_spec(ws[i].0)->Some_0,
                y: T::of_wire_spec(ws[i].1)->Some_0,
            })))
    }

    open spec fn wkb_err_of(b: Seq<u8>) -> errors::WkError {
        match wkb::parse_wkb_line_frame(b) {
            Err(e) => e,
            Ok(ws) => wkb::first_wire_dec_err::<T>(ws)->Some_0,
        }
    }

    open spec fn wkt_err_token(t: Seq<char>) -> Option<Seq<char>> {
        match wkt::wkt_line_tokens(t) {
            None => None,
            Some(toks) => wkt::first_bad_token::<T>(toks),
        }
    }

    open spec fn wkt_enc_err(&self) -> errors::WkError {
        wkt::first_text_enc_err::<T>(self.points@)->Some_0
    }

    open spec fn wkb_enc_err(&self) -> errors::WkError {
        if self.points@.len() > u32::MAX {
            errors::WkError::ConversionUnrepresentable(errors::ConvField::PointCount, None)
        } else {
            wkb::first_wire_enc_err::<T>(self.points@)->Some_0
        }
    }

    proof fn lemma_wkb_round_trip(&self, other: &Self) {
        if self.wkb_ok() is Some {
            let ws = wkb::point_wires(self.points@);
            laws::lemma_line_frame_round_trip(ws);
            assert forall|i: int| 0 <= i < ws.len() implies T::of_wire_spec(
                (#[trigger] ws[i]).0,
            ) == Some(self.points@[i].x) && T::of_wire_spec(ws[i].1) == Some(
                self.points@[i].y,
            ) by {
                self.points@[i].x.lemma_wire_round_trip();
                self.points@[i].y.lemma_wire_round_trip();
            }
            if Self::wkb_parses_to(self.wkb_ok()->Some_0, other) {
                assert(other.points@ =~= self.points@);
            }
        }
    }

    proof fn lemma_wkt_parse_unambiguous(t: Seq<char>, g1: &Self, g2: &Self) {
        if Self::wkt_parses_to(t, g1) && Self::wkt_parses_to(t, g2) {
            assert(g1.points@ =~= g2.points@);
        }
    }

    fn to_wkt(&self) -> (r: Result<String, errors::WkError>) {
        wkt::line_to_wkt(self)
    }

    fn from_wkt(s: &str) -> (r: Result<Self, errors::WkError>) {
        wkt::line_from_wkt(s)
    }

    fn to_wkb(&self) -> (r: Result<Vec<u8>, errors::WkError>) {
        wkb::line_to_wkb(self)
    }

    fn from_wkb(input: Vec<u8>) -> (r: Result<Self, errors::WkError>) {
        wkb::line_from_wkb(input)
    }

    fn to_wkb_hexstring(&self) -> (r: Result<String, errors::WkError>) {
        match wkb::line_to_wkb(self) {
            Ok(v) => Ok(hexstr::encode_hex(&v)),
            Err(e) => Err(e),
        }
    }

    fn from_wkb_hexstring(input: String) -> (r: Result<Self, errors::WkError>) {
        match hexstr::decode_hex(input.as_str()) {
            Some(v) => wkb::line_from_wkb(v),
            None => Err(errors::WkError::EncodingBadHex),
        }
    }
}

} // verus!
