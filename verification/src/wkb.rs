//! The WKB binary codec.
//!
//! Wire layout: one byte-order flag (0 big-endian, 1 little-endian), a
//! 32-bit geometry-type code (1 point, 2 line string), for a line string
//! a 32-bit point count, then each coordinate as eight bytes in the
//! declared order.  The encoder always writes little-endian; the decoder
//! accepts either order, so the codec reads a superset of what it
//! writes.  `wkb_point_bytes` / `wkb_line_bytes` say exactly which bytes
//! are written, and `parse_wkb_point_frame` / `parse_wkb_line_frame` say
//! exactly how a buffer is read, error by error.

use vstd::prelude::*;

use crate::coord::Coord;
use crate::errors::{ConvField, WkError};
use crate::{LineString, Point};
use vstd::bytes::{
    spec_u32_from_le_bytes, spec_u32_to_le_bytes, spec_u64_from_le_bytes, spec_u64_to_le_bytes,
    u32_from_le_bytes, u32_to_le_bytes, u64_from_le_bytes, u64_to_le_bytes,
};
use vstd::slice::slice_subrange;

verus! {

/// The four little-endian bytes of a 32-bit value.
pub open spec fn le4(v: u32) -> Seq<u8> {
    spec_u32_to_le_bytes(v)
}

/// The eight little-endian bytes of a 64-bit value.
pub open spec fn le8(w: u64) -> Seq<u8> {
    spec_u64_to_le_bytes(w)
}

/// Reads four bytes in the declared order (recommended: `s.len() == 4`).
pub open spec fn u32_from_bytes(s: Seq<u8>, le: bool) -> u32 {
    if le {
        spec_u32_from_le_bytes(s)
    } else {
        spec_u32_from_le_bytes(s.reverse())
    }
}

/// Reads eight bytes in the declared order (recommended: `s.len() == 8`).
pub open spec fn u64_from_bytes(s: Seq<u8>, le: bool) -> u64 {
    if le {
        spec_u64_from_le_bytes(s)
    } else {
        spec_u64_from_le_bytes(s.reverse())
    }
}

/// The bytes the encoder writes for a point with wire coordinates
/// `xw`, `yw`: little-endian flag, type code 1, then the coordinates.
pub open spec fn wkb_point_bytes(xw: u64, yw: u64) -> Seq<u8> {
    seq![1u8] + le4(1) + le8(xw) + le8(yw)
}

/// The coordinate section of an encoded line string.
pub open spec fn coords_bytes(ws: Seq<(u64, u64)>) -> Seq<u8>
    decreases ws.len(),
{
    if ws.len() == 0 {
        Seq::empty()
    } else {
        coords_bytes(ws.drop_last()) + le8(ws.last().0) + le8(ws.last().1)
    }
}

/// The bytes the encoder writes for a line string with the given wire
/// coordinate pairs (recommended: at most `u32::MAX` pairs).
pub open spec fn wkb_line_bytes(ws: Seq<(u64, u64)>) -> Seq<u8> {
    seq![1u8] + le4(2) + le4(ws.len() as u32) + coords_bytes(ws)
}

/// The wire coordinate pairs of a point sequence (meaningful when every
/// coordinate has a wire form).
pub open spec fn point_wires<T: Coord>(ps: Seq<Point<T>>) -> Seq<(u64, u64)> {
    ps.map_values(|p: Point<T>| (p.x.wire_opt()->Some_0, p.y.wire_opt()->Some_0))
}

/// Does every point of `ps` have a wire form for both coordinates?
pub open spec fn all_wires_ok<T: Coord>(ps: Seq<Point<T>>) -> bool {
    forall|i: int|
        0 <= i < ps.len() ==> (#[trigger] ps[i]).x.wire_opt() is Some && ps[i].y.wire_opt()
            is Some
}

/// The conversion error encoding reports for the first point whose
/// coordinate has no wire form, reading the points in order, x before
/// y; `None` when every coordinate encodes.
pub open spec fn first_wire_enc_err<T: Coord>(ps: Seq<Point<T>>) -> Option<WkError>
    decreases ps.len(),
{
    if ps.len() == 0 {
        None
    } else if ps[0].x.wire_opt() is None {
        Some(WkError::ConversionUnrepresentable(ConvField::CoordX, None))
    } else if ps[0].y.wire_opt() is None {
        Some(WkError::ConversionUnrepresentable(ConvField::CoordY, None))
    } else {
        first_wire_enc_err::<T>(ps.drop_first())
    }
}

/// The conversion error decoding reports for the first wire pair with
/// no value in the coordinate type, carrying the offending bit
/// pattern; `None` when every pair converts.
pub open spec fn first_wire_dec_err<T: Coord>(ws: Seq<(u64, u64)>) -> Option<WkError>
    decreases ws.len(),
{
    if ws.len() == 0 {
        None
    } else if T::of_wire_spec(ws[0].0) is None {
        Some(WkError::ConversionUnrepresentable(ConvField::CoordX, Some(ws[0].0)))
    } else if T::of_wire_spec(ws[0].1) is None {
        Some(WkError::ConversionUnrepresentable(ConvField::CoordY, Some(ws[0].1)))
    } else {
        first_wire_dec_err::<T>(ws.drop_first())
    }
}

/// Locates the first encoding failure from a clean prefix.
pub proof fn lemma_first_wire_enc_at<T: Coord>(ps: Seq<Point<T>>, i: int)
    requires
        0 <= i <= ps.len(),
        forall|j: int|
            0 <= j < i ==> (#[trigger] ps[j]).x.wire_opt() is Some && ps[j].y.wire_opt() is Some,
    ensures
        i == ps.len() ==> first_wire_enc_err::<T>(ps) is None,
        i < ps.len() && ps[i].x.wire_opt() is None ==> first_wire_enc_err::<T>(ps) == Some(
            WkError::ConversionUnrepresentable(ConvField::CoordX, None),
        ),
        i < ps.len() && ps[i].x.wire_opt() is Some && ps[i].y.wire_opt() is None
            ==> first_wire_enc_err::<T>(ps) == Some(
            WkError::ConversionUnrepresentable(ConvField::CoordY, None),
        ),
    decreases ps.len(),
{
    if i > 0 {
        let rest = ps.drop_first();
        assert(forall|j: int| 0 <= j < i - 1 ==> rest[j] == ps[j + 1]);
        lemma_first_wire_enc_at::<T>(rest, i - 1);
        if i < ps.len() {
            assert(rest[i - 1] == ps[i]);
        }
    }
}

/// Locates the first decoding failure from a clean prefix.
pub proof fn lemma_first_wire_dec_at<T: Coord>(ws: Seq<(u64, u64)>, i: int)
    requires
        0 <= i <= ws.len(),
        forall|j: int|
            0 <= j < i ==> T::of_wire_spec((#[trigger] ws[j]).0) is Some && T::of_wire_spec(
                ws[j].1,
            ) is Some,
    ensures
        i == ws.len() ==> first_wire_dec_err::<T>(ws) is None,
        i < ws.len() && T::of_wire_spec(ws[i].0) is None ==> first_wire_dec_err::<T>(ws) == Some(
            WkError::ConversionUnrepresentable(ConvField::CoordX, Some(ws[i].0)),
        ),
        i < ws.len() && T::of_wire_spec(ws[i].0) is Some && T::of_wire_spec(ws[i].1) is None
            ==> first_wire_dec_err::<T>(ws) == Some(
            WkError::ConversionUnrepresentable(ConvField::CoordY, Some(ws[i].1)),
        ),
    decreases ws.len(),
{
    if i > 0 {
        let rest = ws.drop_first();
        assert(forall|j: int| 0 <= j < i - 1 ==> rest[j] == ws[j + 1]);
        lemma_first_wire_dec_at::<T>(rest, i - 1);
        if i < ws.len() {
            assert(rest[i - 1] == ws[i]);
        }
    }
}

/// How a point buffer is read: exactly 21 bytes, a valid byte-order
/// flag, type code 1, then the two wire coordinates in the declared
/// order.
pub open spec fn parse_wkb_point_frame(b: Seq<u8>) -> Result<(u64, u64), WkError> {
    if b.len() != 21 {
        Err(WkError::FormatWrongLength(b.len() as usize))
    } else if b[0] != 0 && b[0] != 1 {
        Err(WkError::FormatBadByteOrder(b[0]))
    } else {
        let le = b[0] == 1;
        let ty = u32_from_bytes(b.subrange(1, 5), le);
        if ty != 1 {
            Err(WkError::FormatTypeMismatch(ty))
        } else {
            Ok((u64_from_bytes(b.subrange(5, 13), le), u64_from_bytes(b.subrange(13, 21), le)))
        }
    }
}

/// How a line-string buffer is read: flag, type code 2, a point count,
/// then exactly that many coordinate pairs; a buffer that runs out of
/// bytes mid-read is truncated.  Trailing bytes beyond the declared
/// points are ignored, as the sequential reads never reach them.  The
/// declared length is checked as a whole before any pair is converted,
/// so a buffer that is both truncated and holds an unconvertible
/// coordinate reports the truncation.
pub open spec fn parse_wkb_line_frame(b: Seq<u8>) -> Result<Seq<(u64, u64)>, WkError> {
    if b.len() < 1 {
        Err(WkError::FormatTruncated)
    } else if b[0] != 0 && b[0] != 1 {
        Err(WkError::FormatBadByteOrder(b[0]))
    } else {
        let le = b[0] == 1;
        if b.len() < 5 {
            Err(WkError::FormatTruncated)
        } else {
            let ty = u32_from_bytes(b.subrange(1, 5), le);
            if ty != 2 {
                Err(WkError::FormatTypeMismatch(ty))
            } else if b.len() < 9 {
                Err(WkError::FormatTruncated)
            } else {
                let n = u32_from_bytes(b.subrange(5, 9), le);
                if b.len() < 9 + 16 * (n as int) {
                    Err(WkError::FormatTruncated)
                } else {
                    Ok(
                        Seq::new(
                            n as nat,
                            |i: int|
                                (
                                    u64_from_bytes(b.subrange(9 + 16 * i, 17 + 16 * i), le),
                                    u64_from_bytes(b.subrange(17 + 16 * i, 25 + 16 * i), le),
                                ),
                        ),
                    )
                }
            }
        }
    }
}

/// The bytes a point encodes to, if both coordinates have wire forms.
pub open spec fn point_wkb_ok<T: Coord>(p: Point<T>) -> Option<Seq<u8>> {
    match (p.x.wire_opt(), p.y.wire_opt()) {
        (Some(xw), Some(yw)) => Some(wkb_point_bytes(xw, yw)),
        _ => None,
    }
}

/// The bytes a line string encodes to, if the count fits 32 bits and
/// every coordinate has a wire form.
pub open spec fn line_wkb_ok<T: Coord>(ps: Seq<Point<T>>) -> Option<Seq<u8>> {
    if ps.len() <= u32::MAX && all_wires_ok(ps) {
        Some(wkb_line_bytes(point_wires(ps)))
    } else {
        None
    }
}

/// Reads a 32-bit value at `at` in the declared order.
fn read_u32_at(bytes: &Vec<u8>, at: usize, le: bool) -> (v: u32)
    requires
        at + 4 <= bytes@.len(),
    ensures
        v == u32_from_bytes(bytes@.subrange(at as int, at as int + 4), le),
{
    let bl = bytes.len();
    assert(at + 4 <= bl);
    let sub = slice_subrange(bytes.as_slice(), at, at + 4);
    if le {
        u32_from_le_bytes(sub)
    } else {
        let mut rev: Vec<u8> = Vec::new();
        let mut j: usize = 0;
        while j < 4
            invariant
                j <= 4,
                sub@ == bytes@.subrange(at as int, at as int + 4),
                sub@.len() == 4,
                rev@.len() == j,
                forall|t: int| 0 <= t < j ==> rev@[t] == sub@[3 - t],
            decreases 4 - j,
        {
            rev.push(sub[3 - j]);
            j += 1;
        }
        proof {
            assert(rev@ =~= sub@.reverse());
        }
        u32_from_le_bytes(rev.as_slice())
    }
}

/// Reads a 64-bit value at `at` in the declared order.
fn read_u64_at(bytes: &Vec<u8>, at: usize, le: bool) -> (v: u64)
    requires
        at + 8 <= bytes@.len(),
    ensures
        v == u64_from_bytes(bytes@.subrange(at as int, at as int + 8), le),
{
    let bl = bytes.len();
    assert(at + 8 <= bl);
    let sub = slice_subrange(bytes.as_slice(), at, at + 8);
    if le {
        u64_from_le_bytes(sub)
    } else {
        let mut rev: Vec<u8> = Vec::new();
        let mut j: usize = 0;
        while j < 8
            invariant
                j <= 8,
                sub@ == bytes@.subrange(at as int, at as int + 8),
                sub@.len() == 8,
                rev@.len() == j,
                forall|t: int| 0 <= t < j ==> rev@[t] == sub@[7 - t],
            decreases 8 - j,
        {
            rev.push(sub[7 - j]);
            j += 1;
        }
        proof {
            assert(rev@ =~= sub@.reverse());
        }
        u64_from_le_bytes(rev.as_slice())
    }
}

/// Appending one pair extends the coordinate section by its bytes.
proof fn lemma_coords_bytes_push(ws: Seq<(u64, u64)>, p: (u64, u64))
    ensures
        coords_bytes(ws.push(p)) == coords_bytes(ws) + le8(p.0) + le8(p.1),
{
    assert(ws.push(p).drop_last() =~= ws);
    assert(ws.push(p).last() == p);
}

/// Encodes a point: always little-endian, type code 1; a conversion
/// error when a coordinate has no 64-bit wire form.
pub fn point_to_wkb<T: Coord>(p: &Point<T>) -> (r: Result<Vec<u8>, WkError>)
    ensures
        match (p.x.wire_opt(), p.y.wire_opt()) {
            (Some(xw), Some(yw)) => r matches Ok(v) && v@ == wkb_point_bytes(xw, yw),
            (None, _) => r matches Err(e) && e == WkError::ConversionUnrepresentable(
                ConvField::CoordX,
                None,
            ),
            (Some(_), None) => r matches Err(e) && e == WkError::ConversionUnrepresentable(
                ConvField::CoordY,
                None,
            ),
        },
{
    let xw = match p.x.to_wire() {
        Some(w) => w,
        None => {
            return Err(WkError::ConversionUnrepresentable(ConvField::CoordX, None));
        },
    };
    let yw = match p.y.to_wire() {
        Some(w) => w,
        None => {
            return Err(WkError::ConversionUnrepresentable(ConvField::CoordY, None));
        },
    };
    let mut out: Vec<u8> = Vec::new();
    out.push(1u8);
    let mut t = u32_to_le_bytes(1u32);
    out.append(&mut t);
    let mut bx = u64_to_le_bytes(xw);
    out.append(&mut bx);
    let mut by = u64_to_le_bytes(yw);
    out.append(&mut by);
    proof {
        assert(out@ =~= wkb_point_bytes(xw, yw));
    }
    Ok(out)
}

/// Decodes a point buffer, exactly as `parse_wkb_point_frame` reads it;
/// a conversion error when a wire coordinate has no value in `T`.
pub fn point_from_wkb<T: Coord>(input: Vec<u8>) -> (r: Result<Point<T>, WkError>)
    ensures
        match parse_wkb_point_frame(input@) {
            Err(e) => r matches Err(e2) && e2 == e,
            Ok((xw, yw)) => match (T::of_wire_spec(xw), T::of_wire_spec(yw)) {
                (Some(x), Some(y)) => r matches Ok(q) && q == (Point { x, y }),
                (None, _) => r matches Err(e) && e == WkError::ConversionUnrepresentable(
                    ConvField::CoordX,
                    Some(xw),
                ),
                (Some(_), None) => r matches Err(e) && e == WkError::ConversionUnrepresentable(
                    ConvField::CoordY,
                    Some(yw),
                ),
            },
        },
{
    if input.len() != 21 {
        return Err(WkError::FormatWrongLength(input.len()));
    }
    let flag = input[0];
    if flag != 0 && flag != 1 {
        return Err(WkError::FormatBadByteOrder(flag));
    }
    let le = flag == 1;
    let ty = read_u32_at(&input, 1, le);
    if ty != 1 {
        return Err(WkError::FormatTypeMismatch(ty));
    }
    let xw = read_u64_at(&input, 5, le);
    let yw = read_u64_at(&input, 13, le);
    let x = match T::from_wire(xw) {
        Some(x) => x,
        None => {
            return Err(WkError::ConversionUnrepresentable(ConvField::CoordX, Some(xw)));
        },
    };
    let y = match T::from_wire(yw) {
        Some(y) => y,
        None => {
            return Err(WkError::ConversionUnrepresentable(ConvField::CoordY, Some(yw)));
        },
    };
    Ok(Point { x, y })
}

/// Encodes a line string: little-endian flag, type code 2, the point
/// count, then every coordinate pair; a conversion error when the count
/// exceeds 32 bits or a coordinate has no wire form.
pub fn line_to_wkb<T: Coord>(l: &LineString<T>) -> (r: Result<Vec<u8>, WkError>)
    ensures
        l.points@.len() > u32::MAX ==> (r matches Err(e) && e
            == WkError::ConversionUnrepresentable(ConvField::PointCount, None)),
        l.points@.len() <= u32::MAX ==> if all_wires_ok(l.points@) {
            r matches Ok(v) && v@ == wkb_line_bytes(point_wires(l.points@))
        } else {
            r matches Err(e) && e == first_wire_enc_err::<T>(l.points@)->Some_0
        },
{
    let n = l.points.len();
    if n as u64 > 0xffff_ffffu64 {
        return Err(WkError::ConversionUnrepresentable(ConvField::PointCount, None));
    }
    let mut out: Vec<u8> = Vec::new();
    out.push(1u8);
    let mut t = u32_to_le_bytes(2u32);
    out.append(&mut t);
    let mut tc = u32_to_le_bytes(n as u32);
    out.append(&mut tc);
    proof {
        assert(point_wires(l.points@).len() == l.points@.len());
        assert(out@ =~= seq![1u8] + le4(2) + le4(l.points@.len() as u32));
    }
    let mut i: usize = 0;
    while i < n
        invariant
            i <= n,
            n == l.points@.len(),
            n <= u32::MAX,
            forall|j: int|
                0 <= j < i ==> (#[trigger] l.points@[j]).x.wire_opt() is Some
                    && l.points@[j].y.wire_opt() is Some,
            out@ == seq![1u8] + le4(2) + le4(n as u32) + coords_bytes(
                point_wires(l.points@.take(i as int)),
            ),
        decreases n - i,
    {
        let xw = match l.points[i].x.to_wire() {
            Some(w) => w,
            None => {
                proof {
                    lemma_first_wire_enc_at::<T>(l.points@, i as int);
                }
                return Err(WkError::ConversionUnrepresentable(ConvField::CoordX, None));
            },
        };
        let yw = match l.points[i].y.to_wire() {
            Some(w) => w,
            None => {
                proof {
                    lemma_first_wire_enc_at::<T>(l.points@, i as int);
                }
                return Err(WkError::ConversionUnrepresentable(ConvField::CoordY, None));
            },
        };
        let mut bx = u64_to_le_bytes(xw);
        out.append(&mut bx);
        let mut by = u64_to_le_bytes(yw);
        out.append(&mut by);
        proof {
            let pre = point_wires(l.points@.take(i as int));
            let post = point_wires(l.points@.take(i as int + 1));
            assert(post =~= pre.push((xw, yw)));
            lemma_coords_bytes_push(pre, (xw, yw));
            assert(out@ =~= seq![1u8] + le4(2) + le4(n as u32) + coords_bytes(post));
        }
        i += 1;
    }
    proof {
        assert(l.points@.take(n as int) =~= l.points@);
    }
    Ok(out)
}

/// Decodes a line-string buffer, exactly as `parse_wkb_line_frame`
/// reads it; a conversion error when a wire coordinate has no value in
/// `T`.
pub fn line_from_wkb<T: Coord>(input: Vec<u8>) -> (r: Result<LineString<T>, WkError>)
    ensures
        match parse_wkb_line_frame(input@) {
            Err(e) => r matches Err(e2) && e2 == e,
            Ok(ws) => if forall|i: int|
                0 <= i < ws.len() ==> T::of_wire_spec((#[trigger] ws[i]).0) is Some
                    && T::of_wire_spec(ws[i].1) is Some {
                r matches Ok(l) && l.points@.len() == ws.len() && (forall|i: int|
                    0 <= i < ws.len() ==> (#[trigger] l.points@[i]) == (Point {
                        x: T::of_wire_spec(ws[i].0)->Some_0,
                        y: T::of_wire_spec(ws[i].1)->Some_0,
                    }))
            } else {
                r matches Err(e) && e == first_wire_dec_err::<T>(ws)->Some_0
            },
        },
{
    if input.len() < 1 {
        return Err(WkError::FormatTruncated);
    }
    let flag = input[0];
    if flag != 0 && flag != 1 {
        return Err(WkError::FormatBadByteOrder(flag));
    }
    let le = flag == 1;
    if input.len() < 5 {
        return Err(WkError::FormatTruncated);
    }
    let ty = read_u32_at(&input, 1, le);
    if ty != 2 {
        return Err(WkError::FormatTypeMismatch(ty));
    }
    if input.len() < 9 {
        return Err(WkError::FormatTruncated);
    }
    let n32 = read_u32_at(&input, 5, le);
    if (input.len() as u64) < 9u64 + 16u64 * (n32 as u64) {
        return Err(WkError::FormatTruncated);
    }
    let n = n32 as usize;
    let ilen = input.len();
    let ghost ws = parse_wkb_line_frame(input@)->Ok_0;
    proof {
        assert(parse_wkb_line_frame(input@) is Ok);
        assert(ws.len() == n32 as nat);
    }
    let mut res: LineString<T> = LineString::new_empty();
    let mut i: usize = 0;
    while i < n
        invariant
            i <= n,
            n == n32 as int,
            ilen == input@.len(),
            9 + 16 * (n as int) <= ilen,
            input@.len() >= 1,
            le == (input@[0] == 1),
            ws == parse_wkb_line_frame(input@)->Ok_0,
            parse_wkb_line_frame(input@) is Ok,
            ws.len() == n as nat,
            res.points@.len() == i,
            forall|j: int|
                0 <= j < i ==> T::of_wire_spec((#[trigger] ws[j]).0) is Some && T::of_wire_spec(
                    ws[j].1,
                ) is Some,
            forall|j: int|
                0 <= j < i ==> (#[trigger] res.points@[j]) == (Point {
                    x: T::of_wire_spec(ws[j].0)->Some_0,
                    y: T::of_wire_spec(ws[j].1)->Some_0,
                }),
        decreases n - i,
    {
        let xw = read_u64_at(&input, 9 + 16 * i, le);
        let yw = read_u64_at(&input, 17 + 16 * i, le);
        proof {
            assert(ws[i as int] == (
                u64_from_bytes(input@.subrange(9 + 16 * (i as int), 17 + 16 * (i as int)), le),
                u64_from_bytes(input@.subrange(17 + 16 * (i as int), 25 + 16 * (i as int)), le),
            ));
        }
        let x = match T::from_wire(xw) {
            Some(x) => x,
            None => {
                proof {
                    lemma_first_wire_dec_at::<T>(ws, i as int);
                }
                return Err(WkError::ConversionUnrepresentable(ConvField::CoordX, Some(xw)));
            },
        };
        let y = match T::from_wire(yw) {
            Some(y) => y,
            None => {
                proof {
                    lemma_first_wire_dec_at::<T>(ws, i as int);
                }
                return Err(WkError::ConversionUnrepresentable(ConvField::CoordY, Some(yw)));
            },
        };
        res.push_point(Point { x, y });
        i += 1;
    }
    Ok(res)
}

} // verus!
