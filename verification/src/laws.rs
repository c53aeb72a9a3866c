//! The codec's laws, stated and proved over the spec functions that the
//! executable functions' contracts use.
//!
//! Encoding here is a spec *function* of the geometry, so determinism
//! is a stated lemma; the frame lemmas show that every encoded buffer
//! reads back to the wire values it was built from, in either byte
//! order; and the token lemma shows that a formatted point re-parses to
//! its own coordinate tokens.  Together with the per-coordinate
//! round-trip laws of [`crate::coord::Coord`], these give the geometry
//! round trips.

use vstd::prelude::*;

use crate::coord::Coord;
use crate::numtext::is_plain_num_char;
use crate::wkb::{
    coords_bytes, le4, le8, line_wkb_ok, parse_wkb_line_frame, parse_wkb_point_frame,
    point_wkb_ok, u32_from_bytes, wkb_line_bytes, wkb_point_bytes,
};
use crate::wkt::{
    is_tok_char, lemma_first_bad_prefix, lemma_tok_run, pairs_text, point_texts, skip_sp, tok_end,
    trim_end_idx, trim_start_idx, trimmed, wkt_line_kw, wkt_line_text, wkt_line_tokens, wkt_pairs,
    wkt_point_kw, wkt_point_text, wkt_point_tokens,
};
use crate::{LineString, Point, WKGeom};
use vstd::bytes::{lemma_auto_spec_u32_to_from_le_bytes, lemma_auto_spec_u64_to_from_le_bytes};

verus! {

/// The big-endian image of an encoded point: flag 0, every multi-byte
/// field reversed.
pub open spec fn wkb_point_bytes_be(xw: u64, yw: u64) -> Seq<u8> {
    seq![0u8] + le4(1).reverse() + le8(xw).reverse() + le8(yw).reverse()
}

/// An encoded point frame reads back to the wire values it was built
/// from.
pub proof fn lemma_point_frame_round_trip(xw: u64, yw: u64)
    ensures
        parse_wkb_point_frame(wkb_point_bytes(xw, yw)) == Ok::<(u64, u64), crate::errors::WkError>(
            (xw, yw),
        ),
{
    lemma_auto_spec_u32_to_from_le_bytes();
    lemma_auto_spec_u64_to_from_le_bytes();
    let b = wkb_point_bytes(xw, yw);
    assert(b.len() == 21);
    assert(b[0] == 1);
    assert(b.subrange(1, 5) =~= le4(1));
    assert(b.subrange(5, 13) =~= le8(xw));
    assert(b.subrange(13, 21) =~= le8(yw));
}

/// Byte-order superset: the big-endian image of an encoded point
/// decodes to the same wire values as the little-endian buffer itself.
pub proof fn lemma_byte_order_superset(xw: u64, yw: u64)
    ensures
        parse_wkb_point_frame(wkb_point_bytes_be(xw, yw)) == parse_wkb_point_frame(
            wkb_point_bytes(xw, yw),
        ),
        parse_wkb_point_frame(wkb_point_bytes_be(xw, yw)) == Ok::<
            (u64, u64),
            crate::errors::WkError,
        >((xw, yw)),
{
    lemma_auto_spec_u32_to_from_le_bytes();
    lemma_auto_spec_u64_to_from_le_bytes();
    lemma_point_frame_round_trip(xw, yw);
    let b = wkb_point_bytes_be(xw, yw);
    assert(le4(1).len() == 4 && le8(xw).len() == 8 && le8(yw).len() == 8);
    assert(b.len() == 21);
    assert(b[0] == 0);
    assert(b.subrange(1, 5) =~= le4(1).reverse());
    assert(b.subrange(5, 13) =~= le8(xw).reverse());
    assert(b.subrange(13, 21) =~= le8(yw).reverse());
    assert(le4(1).reverse().reverse() =~= le4(1));
    assert(le8(xw).reverse().reverse() =~= le8(xw));
    assert(le8(yw).reverse().reverse() =~= le8(yw));
}

/// The coordinate section is sixteen bytes per pair.
pub proof fn lemma_coords_bytes_len(ws: Seq<(u64, u64)>)
    ensures
        coords_bytes(ws).len() == 16 * ws.len(),
    decreases ws.len(),
{
    lemma_auto_spec_u64_to_from_le_bytes();
    if ws.len() > 0 {
        lemma_coords_bytes_len(ws.drop_last());
    }
}

/// Each pair sits at its fixed offset of the coordinate section.
pub proof fn lemma_coords_bytes_index(ws: Seq<(u64, u64)>, i: int)
    requires
        0 <= i < ws.len(),
    ensures
        coords_bytes(ws).subrange(16 * i, 16 * i + 8) == le8(ws[i].0),
        coords_bytes(ws).subrange(16 * i + 8, 16 * i + 16) == le8(ws[i].1),
    decreases ws.len(),
{
    lemma_auto_spec_u64_to_from_le_bytes();
    lemma_coords_bytes_len(ws);
    let pre = ws.drop_last();
    lemma_coords_bytes_len(pre);
    if i == ws.len() - 1 {
        assert(coords_bytes(ws).subrange(16 * i, 16 * i + 8) =~= le8(ws[i].0));
        assert(coords_bytes(ws).subrange(16 * i + 8, 16 * i + 16) =~= le8(ws[i].1));
    } else {
        lemma_coords_bytes_index(pre, i);
        assert(coords_bytes(ws).subrange(16 * i, 16 * i + 8) =~= coords_bytes(pre).subrange(
            16 * i,
            16 * i + 8,
        ));
        assert(coords_bytes(ws).subrange(16 * i + 8, 16 * i + 16) =~= coords_bytes(pre).subrange(
            16 * i + 8,
            16 * i + 16,
        ));
        assert(pre[i] == ws[i]);
    }
}

/// An encoded line-string frame reads back to the wire pairs it was
/// built from, in order and in full.
pub proof fn lemma_line_frame_round_trip(ws: Seq<(u64, u64)>)
    requires
        ws.len() <= u32::MAX,
    ensures
        parse_wkb_line_frame(wkb_line_bytes(ws)) == Ok::<Seq<(u64, u64)>, crate::errors::WkError>(
            ws,
        ),
{
    lemma_auto_spec_u32_to_from_le_bytes();
    lemma_auto_spec_u64_to_from_le_bytes();
    lemma_coords_bytes_len(ws);
    let b = wkb_line_bytes(ws);
    let n = ws.len();
    assert(b.len() == 9 + 16 * n);
    assert(b[0] == 1);
    assert(b.subrange(1, 5) =~= le4(2));
    assert(b.subrange(5, 9) =~= le4(n as u32));
    assert(u32_from_bytes(b.subrange(5, 9), true) == n as u32);
    let dec = parse_wkb_line_frame(b)->Ok_0;
    assert(dec =~= ws) by {
        assert(dec.len() == n);
        assert forall|i: int| 0 <= i < n implies dec[i] == ws[i] by {
            lemma_coords_bytes_index(ws, i);
            assert(b.subrange(9 + 16 * i, 17 + 16 * i) =~= coords_bytes(ws).subrange(
                16 * i,
                16 * i + 8,
            ));
            assert(b.subrange(17 + 16 * i, 25 + 16 * i) =~= coords_bytes(ws).subrange(
                16 * i + 8,
                16 * i + 16,
            ));
        }
    }
}

/// A formatted point re-parses to exactly its two coordinate tokens,
/// whenever the tokens are nonempty runs of sign and digit characters.
pub proof fn lemma_wkt_point_text_tokens(xt: Seq<char>, yt: Seq<char>)
    requires
        xt.len() > 0,
        yt.len() > 0,
        forall|i: int| 0 <= i < xt.len() ==> is_plain_num_char(#[trigger] xt[i]),
        forall|i: int| 0 <= i < yt.len() ==> is_plain_num_char(#[trigger] yt[i]),
    ensures
        wkt_point_tokens(wkt_point_text(xt, yt)) == Some((xt, yt)),
{
    let s = wkt_point_text(xt, yt);
    let xl = xt.len() as int;
    let yl = yt.len() as int;
    let n = 9 + xl + yl;
    assert(s.len() == n);
    assert(s[0] == 'P');
    assert(s[5] == ' ' && s[6] == '(');
    assert(forall|k: int| 7 <= k < 7 + xl ==> s[k] == xt[k - 7]);
    assert(s[7 + xl] == ' ');
    assert(forall|k: int| 8 + xl <= k < 8 + xl + yl ==> s[k] == yt[k - 8 - xl]);
    assert(s[n - 1] == ')');

    // trimming leaves the text unchanged
    assert(trim_start_idx(s, 0) == 0);
    assert(trim_end_idx(s, 0, n) == n);
    assert(trimmed(s) =~= s);
    assert(trimmed(s) == s);

    assert(s.subrange(0, 5) =~= wkt_point_kw());

    // the scan lands on each boundary in turn
    assert(skip_sp(s, 6) == 6);
    assert(skip_sp(s, 5) == 6);
    assert(num_chars_are_tok(xt));
    assert(num_chars_are_tok(yt));
    assert(s[7] == xt[0] && is_tok_char(s[7]) && s[7] != ' ');
    assert(skip_sp(s, 7) == 7);
    lemma_tok_run(s, 7, 7 + xl);
    assert(tok_end(s, 7) == 7 + xl);
    assert(skip_sp(s, 8 + xl) == 8 + xl) by {
        assert(s[8 + xl] == yt[0] && s[8 + xl] != ' ');
    }
    assert(skip_sp(s, 7 + xl) == 8 + xl);
    lemma_tok_run(s, 8 + xl, 8 + xl + yl);
    assert(tok_end(s, 8 + xl) == 8 + xl + yl);
    assert(skip_sp(s, 8 + xl + yl) == 8 + xl + yl);
    assert(s[8 + xl + yl] == ')');
    assert(s.subrange(7, 7 + xl) =~= xt);
    assert(s.subrange(8 + xl, 8 + xl + yl) =~= yt);
}

/// Every character of a numeric token is a token character and no
/// space.
pub open spec fn num_chars_are_tok(t: Seq<char>) -> bool {
    forall|i: int|
        0 <= i < t.len() ==> is_plain_num_char(#[trigger] t[i]) ==> is_tok_char(t[i]) && t[i]
            != ' '
}

/// Round trip (WKT, point): a formatted point's text parses, and any
/// parse of it gives the point back.
pub proof fn lemma_wkt_point_round_trip<T: Coord>(p: Point<T>, other: Point<T>)
    requires
        p.wkt_ok() is Some,
    ensures
        Point::<T>::wkt_parses(p.wkt_ok()->Some_0),
        Point::<T>::wkt_parses_to(p.wkt_ok()->Some_0, &other) ==> p == other,
{
    let xt = p.x.text_opt()->Some_0;
    let yt = p.y.text_opt()->Some_0;
    p.x.lemma_text_shape();
    p.y.lemma_text_shape();
    lemma_wkt_point_text_tokens(xt, yt);
    p.x.lemma_text_round_trip();
    p.y.lemma_text_round_trip();
}

/// Is every token of the pair list a nonempty run of sign and digit
/// characters?
pub open spec fn toks_well_formed(toks: Seq<(Seq<char>, Seq<char>)>) -> bool {
    forall|j: int|
        0 <= j < toks.len() ==> {
            let (xt, yt) = #[trigger] toks[j];
            xt.len() > 0 && yt.len() > 0 && (forall|i: int|
                0 <= i < xt.len() ==> is_plain_num_char(#[trigger] xt[i])) && (forall|i: int|
                0 <= i < yt.len() ==> is_plain_num_char(#[trigger] yt[i]))
        }
}

/// `pairs_text` seen from the front: first pair, separator, the rest.
proof fn lemma_pairs_text_front(toks: Seq<(Seq<char>, Seq<char>)>)
    requires
        toks.len() >= 2,
    ensures
        pairs_text(toks) == toks[0].0 + seq![' '] + toks[0].1 + seq![',', ' '] + pairs_text(
            toks.drop_first(),
        ),
    decreases toks.len(),
{
    let rest = toks.drop_first();
    if toks.len() == 2 {
        let dl = toks.drop_last();
        assert(pairs_text(dl) == dl[0].0 + seq![' '] + dl[0].1);
        assert(dl[0] == toks[0] && rest[0] == toks[1] && toks.last() == toks[1]);
        assert(pairs_text(rest) == rest[0].0 + seq![' '] + rest[0].1);
        assert(pairs_text(toks) =~= toks[0].0 + seq![' '] + toks[0].1 + seq![',', ' ']
            + pairs_text(rest));
    } else {
        let dl = toks.drop_last();
        lemma_pairs_text_front(dl);
        assert(rest.drop_last() =~= dl.drop_first());
        assert(rest.last() == toks.last());
        assert(rest.len() >= 2);
        assert(pairs_text(rest) == pairs_text(rest.drop_last()) + seq![',', ' '] + rest.last().0
            + seq![' '] + rest.last().1);
        assert(dl[0] == toks[0]);
        assert(pairs_text(toks) =~= toks[0].0 + seq![' '] + toks[0].1 + seq![',', ' ']
            + pairs_text(rest));
    }
}

/// A pair section followed by the closing parenthesis parses to
/// exactly its pairs.
proof fn lemma_pairs_text_parses(s: Seq<char>, i: int, toks: Seq<(Seq<char>, Seq<char>)>)
    requires
        toks.len() >= 1,
        toks_well_formed(toks),
        0 <= i,
        s.len() == i + pairs_text(toks).len() + 1,
        s.subrange(i, i + pairs_text(toks).len() as int) == pairs_text(toks),
        s[s.len() - 1] == ')',
    ensures
        wkt_pairs(s, i) == Some(toks),
    decreases toks.len(),
{
    let pt = pairs_text(toks);
    let (xt, yt) = toks[0];
    let xl = xt.len() as int;
    let yl = yt.len() as int;
    assert(num_chars_are_tok(xt));
    assert(num_chars_are_tok(yt));
    assert forall|k: int| 0 <= k < pt.len() implies s[i + k] == pt[k] by {
        assert(pt[k] == s.subrange(i, i + pt.len() as int)[k]);
    }
    if toks.len() == 1 {
        assert(pt == xt + seq![' '] + yt);
        assert(pt.len() == xl + 1 + yl);
        assert forall|k: int| i <= k < i + xl implies is_tok_char(#[trigger] s[k]) by {
            assert(s[i + (k - i)] == pt[k - i]);
            assert(pt[k - i] == xt[k - i]);
        }
        assert(pt[xl] == ' ');
        assert(s[i + xl] == ' ' && !is_tok_char(s[i + xl]));
        lemma_tok_run(s, i, i + xl);
        assert forall|k: int| i + xl + 1 <= k < i + xl + 1 + yl implies is_tok_char(
            #[trigger] s[k],
        ) by {
            assert(s[i + (k - i)] == pt[k - i]);
            assert(pt[k - i] == yt[k - i - xl - 1]);
        }
        assert(s[i + (xl + 1)] == pt[xl + 1]);
        assert(s[i + xl + 1] == yt[0] && s[i + xl + 1] != ' ');
        assert(skip_sp(s, i + xl + 1) == i + xl + 1);
        assert(skip_sp(s, i + xl) == i + xl + 1);
        assert(s[i + xl + 1 + yl] == ')' && !is_tok_char(s[i + xl + 1 + yl]));
        lemma_tok_run(s, i + xl + 1, i + xl + 1 + yl);
        assert(skip_sp(s, i + xl + 1 + yl) == i + xl + 1 + yl);
        assert(s.subrange(i, i + xl) =~= xt);
        assert(s.subrange(i + xl + 1, i + xl + 1 + yl) =~= yt) by {
            assert forall|k: int|
                0 <= k < yl implies s.subrange(i + xl + 1, i + xl + 1 + yl)[k] == yt[k] by {
                assert(s.subrange(i + xl + 1, i + xl + 1 + yl)[k] == s[i + (xl + 1 + k)]);
                assert(s[i + (xl + 1 + k)] == pt[xl + 1 + k]);
                assert(pt[xl + 1 + k] == yt[k]);
            }
        }
        assert(wkt_pairs(s, i) == Some(seq![(xt, yt)]));
        assert(seq![(xt, yt)] =~= toks);
    } else {
        lemma_pairs_text_front(toks);
        let rest = toks.drop_first();
        let rt = pairs_text(rest);
        assert(pt == xt + seq![' '] + yt + seq![',', ' '] + rt);
        assert(pt.len() == xl + 1 + yl + 2 + rt.len());
        assert forall|k: int| i <= k < i + xl implies is_tok_char(#[trigger] s[k]) by {
            assert(s[i + (k - i)] == pt[k - i]);
            assert(pt[k - i] == xt[k - i]);
        }
        assert(pt[xl] == ' ');
        assert(s[i + xl] == ' ' && !is_tok_char(s[i + xl]));
        lemma_tok_run(s, i, i + xl);
        assert forall|k: int| i + xl + 1 <= k < i + xl + 1 + yl implies is_tok_char(
            #[trigger] s[k],
        ) by {
            assert(s[i + (k - i)] == pt[k - i]);
            assert(pt[k - i] == yt[k - i - xl - 1]);
        }
        assert(s[i + (xl + 1)] == pt[xl + 1]);
        assert(s[i + xl + 1] == yt[0] && s[i + xl + 1] != ' ');
        assert(skip_sp(s, i + xl + 1) == i + xl + 1);
        assert(skip_sp(s, i + xl) == i + xl + 1);
        let j = i + xl + 1 + yl;
        assert(s[i + (xl + 1 + yl)] == pt[xl + 1 + yl]);
        assert(s[j] == ',' && !is_tok_char(s[j]));
        lemma_tok_run(s, i + xl + 1, j);
        assert(skip_sp(s, j) == j);
        assert(s[i + (xl + 1 + yl + 1)] == pt[xl + 1 + yl + 1]);
        assert(s[j + 1] == ' ');
        let i5 = j + 2;
        assert(toks_well_formed(rest)) by {
            assert(forall|m: int| 0 <= m < rest.len() ==> rest[m] == toks[m + 1]);
        }
        assert(rest[0] == toks[1]);
        assert(rest[0].0.len() > 0 && is_plain_num_char(rest[0].0[0]));
        assert(rt.len() > 0 && rt[0] == rest[0].0[0]) by {
            if rest.len() == 1 {
                assert(rt == rest[0].0 + seq![' '] + rest[0].1);
            } else {
                lemma_pairs_text_front(rest);
            }
        }
        assert(s[i + (xl + yl + 3)] == pt[xl + yl + 3]);
        assert(pt[xl + yl + 3] == rt[0]);
        assert(s[i5] == rt[0] && s[i5] != ' ');
        assert(skip_sp(s, i5) == i5);
        assert(skip_sp(s, j + 1) == i5);
        assert(s.subrange(i5, i5 + rt.len() as int) =~= rt) by {
            assert forall|k: int| 0 <= k < rt.len() implies s.subrange(
                i5,
                i5 + rt.len() as int,
            )[k] == rt[k] by {
                assert(s.subrange(i5, i5 + rt.len() as int)[k] == s[i5 + k]);
                assert(s[i + (xl + yl + 3 + k)] == pt[xl + yl + 3 + k]);
                assert(pt[xl + yl + 3 + k] == rt[k]);
            }
        }
        lemma_pairs_text_parses(s, i5, rest);
        assert(s.subrange(i, i + xl) =~= xt);
        assert(s.subrange(i + xl + 1, j) =~= yt) by {
            assert forall|k: int|
                0 <= k < yl implies s.subrange(i + xl + 1, j)[k] == yt[k] by {
                assert(s.subrange(i + xl + 1, j)[k] == s[i + (xl + 1 + k)]);
                assert(s[i + (xl + 1 + k)] == pt[xl + 1 + k]);
                assert(pt[xl + 1 + k] == yt[k]);
            }
        }
        assert(wkt_pairs(s, i) == Some(seq![(xt, yt)] + rest));
        assert(seq![(xt, yt)] + rest =~= toks);
    }
}

/// A formatted line string re-parses to exactly its coordinate
/// tokens, whenever it has at least one pair and every token is a
/// nonempty run of sign and digit characters.
pub proof fn lemma_wkt_line_text_tokens(toks: Seq<(Seq<char>, Seq<char>)>)
    requires
        toks.len() >= 1,
        toks_well_formed(toks),
    ensures
        wkt_line_tokens(wkt_line_text(toks)) == Some(toks),
{
    let s = wkt_line_text(toks);
    let pt = pairs_text(toks);
    let n = 13 + pt.len() as int;
    assert(s.len() == n);
    assert(s[0] == 'L');
    assert(s[n - 1] == ')');
    assert(trim_start_idx(s, 0) == 0);
    assert(trim_end_idx(s, 0, n) == n);
    assert(trimmed(s) =~= s);
    assert(trimmed(s) == s);
    assert(s.subrange(0, 10) =~= wkt_line_kw());
    assert(s[10] == ' ' && s[11] == '(');
    assert(skip_sp(s, 11) == 11);
    assert(skip_sp(s, 10) == 11);
    let (xt0, yt0) = toks[0];
    assert(pt.len() > 0 && pt[0] == xt0[0]) by {
        if toks.len() == 1 {
            assert(pt == xt0 + seq![' '] + yt0);
        } else {
            lemma_pairs_text_front(toks);
        }
    }
    assert(xt0.len() > 0 && is_plain_num_char(xt0[0]));
    assert(s[12] == pt[0] && s[12] != ' ');
    assert(skip_sp(s, 12) == 12);
    assert(s.subrange(12, 12 + pt.len() as int) =~= pt) by {
        assert forall|k: int| 0 <= k < pt.len() implies s.subrange(
            12,
            12 + pt.len() as int,
        )[k] == pt[k] by {
            assert(s.subrange(12, 12 + pt.len() as int)[k] == s[12 + k]);
            assert(s[12 + k] == pt[k]);
        }
    }
    lemma_pairs_text_parses(s, 12, toks);
}

/// Round trip (WKT, line string): a formatted line string with at
/// least one point parses, and any parse of it carries the same point
/// sequence.  (An empty line string formats to text with no coordinate
/// pair, which parsing deliberately rejects.)
pub proof fn lemma_wkt_line_round_trip<T: Coord>(l: &LineString<T>, other: &LineString<T>)
    requires
        l.wkt_ok() is Some,
        l.points@.len() >= 1,
    ensures
        LineString::<T>::wkt_parses(l.wkt_ok()->Some_0),
        LineString::<T>::wkt_parses_to(l.wkt_ok()->Some_0, other) ==> l.points@ == other.points@,
{
    let ps = l.points@;
    let toks = point_texts(ps);
    assert(toks.len() == ps.len());
    assert forall|j: int| 0 <= j < toks.len() implies {
        let (xt, yt) = #[trigger] toks[j];
        xt.len() > 0 && yt.len() > 0 && (forall|i: int|
            0 <= i < xt.len() ==> is_plain_num_char(#[trigger] xt[i])) && (forall|i: int|
            0 <= i < yt.len() ==> is_plain_num_char(#[trigger] yt[i])) && T::of_text_spec(xt)
            == Some(ps[j].x) && T::of_text_spec(yt) == Some(ps[j].y)
    } by {
        ps[j].x.lemma_text_shape();
        ps[j].y.lemma_text_shape();
        ps[j].x.lemma_text_round_trip();
        ps[j].y.lemma_text_round_trip();
    }
    assert(toks_well_formed(toks));
    lemma_wkt_line_text_tokens(toks);
    lemma_first_bad_prefix::<T>(toks, toks.len() as int);
    if LineString::<T>::wkt_parses_to(l.wkt_ok()->Some_0, other) {
        assert(other.points@ =~= ps);
    }
}

/// Round trip through the hex transport: the hex text of a geometry's
/// encoding decodes back to the same bytes, and those bytes back to
/// the geometry alone.
pub proof fn lemma_hex_transport_round_trip<G: WKGeom>(g: &G, other: &G)
    ensures
        g.wkb_ok() matches Some(b) ==> {
            &&& crate::hexstr::hex_to_bytes(crate::hexstr::bytes_to_hex(b)) == Some(b)
            &&& G::wkb_parses(b)
            &&& G::wkb_parses_to(b, other) ==> g.same(other)
        },
{
    if g.wkb_ok() is Some {
        crate::hexstr::lemma_hex_round_trip(g.wkb_ok()->Some_0);
        g.lemma_wkb_round_trip(other);
    }
}

/// Determinism: the bytes a point encodes to are a function of its
/// value, so equal points encode byte-identically.
pub proof fn lemma_wkb_point_deterministic<T: Coord>(p1: Point<T>, p2: Point<T>)
    requires
        p1 == p2,
    ensures
        point_wkb_ok(p1) == point_wkb_ok(p2),
{
}

/// Determinism for line strings: equal point sequences encode
/// byte-identically.
pub proof fn lemma_wkb_line_deterministic<T: Coord>(
    l1: crate::LineString<T>,
    l2: crate::LineString<T>,
)
    requires
        l1.points@ == l2.points@,
    ensures
        line_wkb_ok(l1.points@) == line_wkb_ok(l2.points@),
{
}

} // verus!
