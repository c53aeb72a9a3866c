//! The WKT text codec.
//!
//! Formatting writes `POINT (x y)` and `LINESTRING (x1 y1, x2 y2, ...)`
//! with each coordinate in its canonical decimal text.  Parsing trims
//! surrounding whitespace, requires the keyword and the parenthesis
//! structure, and is liberal about spaces around parentheses and between
//! tokens, as hand-written WKT is inconsistently spaced.  A line string
//! needs at least one coordinate pair to parse, though an empty value
//! can be built programmatically; that asymmetry is deliberate.
//!
//! `wkt_point_tokens` / `wkt_line_tokens` say exactly which token
//! substrings a text yields (`None` when the grammar does not match),
//! and the parsers are proved exact against them.

use vstd::prelude::*;

use crate::coord::Coord;
use crate::errors::{ConvField, WkError};
use crate::{LineString, Point};

verus! {

/// Whitespace that surrounding trim removes.
pub open spec fn is_ws(c: char) -> bool {
    c == ' ' || c == '\t' || c == '\n' || c == '\r'
}

/// A character that may stand inside a coordinate token: anything but
/// the separators and parentheses of the grammar.
pub open spec fn is_tok_char(c: char) -> bool {
    !(c == ' ' || c == ')' || c == ',' || c == '(')
}

/// The first index at or after `i` that does not hold leading
/// whitespace.
pub open spec fn trim_start_idx(t: Seq<char>, i: int) -> int
    decreases t.len() - i,
{
    if 0 <= i < t.len() && is_ws(t[i]) {
        trim_start_idx(t, i + 1)
    } else {
        i
    }
}

/// The end of the text once trailing whitespace before `j` is dropped
/// (never below `a`).
pub open spec fn trim_end_idx(t: Seq<char>, a: int, j: int) -> int
    decreases j - a,
{
    if a < j <= t.len() && is_ws(t[j - 1]) {
        trim_end_idx(t, a, j - 1)
    } else {
        j
    }
}

/// The text with surrounding whitespace removed.
pub open spec fn trimmed(t: Seq<char>) -> Seq<char> {
    let a = trim_start_idx(t, 0);
    let b = trim_end_idx(t, a, t.len() as int);
    t.subrange(a, b)
}

/// The first index at or after `i` that does not hold a space.
pub open spec fn skip_sp(t: Seq<char>, i: int) -> int
    decreases t.len() - i,
{
    if 0 <= i < t.len() && t[i] == ' ' {
        skip_sp(t, i + 1)
    } else {
        i
    }
}

/// The end of the token run starting at `i`.
pub open spec fn tok_end(t: Seq<char>, i: int) -> int
    decreases t.len() - i,
{
    if 0 <= i < t.len() && is_tok_char(t[i]) {
        tok_end(t, i + 1)
    } else {
        i
    }
}

/// A run of token characters ending at a non-token position is exactly
/// what `tok_end` scans.
pub proof fn lemma_tok_run(t: Seq<char>, i: int, j: int)
    requires
        0 <= i <= j <= t.len(),
        forall|k: int| i <= k < j ==> is_tok_char(#[trigger] t[k]),
        j == t.len() || !is_tok_char(t[j]),
    ensures
        tok_end(t, i) == j,
    decreases j - i,
{
    if i < j {
        lemma_tok_run(t, i + 1, j);
    }
}

/// The keyword `POINT`.
pub open spec fn wkt_point_kw() -> Seq<char> {
    seq!['P', 'O', 'I', 'N', 'T']
}

/// The keyword `LINESTRING`.
pub open spec fn wkt_line_kw() -> Seq<char> {
    seq!['L', 'I', 'N', 'E', 'S', 'T', 'R', 'I', 'N', 'G']
}

/// The token pair a point text yields, or `None` when the text does not
/// match `POINT *( *x +y *)` after trimming.
pub open spec fn wkt_point_tokens(raw: Seq<char>) -> Option<(Seq<char>, Seq<char>)> {
    let t = trimmed(raw);
    if t.len() < 5 || t.subrange(0, 5) != wkt_point_kw() {
        None
    } else {
        let i1 = skip_sp(t, 5);
        if !(i1 < t.len() && t[i1] == '(') {
            None
        } else {
            let i2 = skip_sp(t, i1 + 1);
            let xe = tok_end(t, i2);
            if xe == i2 {
                None
            } else {
                let i3 = skip_sp(t, xe);
                if i3 == xe {
                    None
                } else {
                    let ye = tok_end(t, i3);
                    if ye == i3 {
                        None
                    } else {
                        let i4 = skip_sp(t, ye);
                        if i4 < t.len() && t[i4] == ')' && i4 + 1 == t.len() {
                            Some((t.subrange(i2, xe), t.subrange(i3, ye)))
                        } else {
                            None
                        }
                    }
                }
            }
        }
    }
}

/// The coordinate pairs read from position `i` to the closing
/// parenthesis: `x +y`, repeated with `,` separators, then `)` at the
/// very end.
pub open spec fn wkt_pairs(t: Seq<char>, i: int) -> Option<Seq<(Seq<char>, Seq<char>)>>
    decreases t.len() - i,
{
    let xe = tok_end(t, i);
    if !(i < xe <= t.len()) {
        None
    } else {
        let i3 = skip_sp(t, xe);
        if !(xe < i3 <= t.len()) {
            None
        } else {
            let ye = tok_end(t, i3);
            if !(i3 < ye <= t.len()) {
                None
            } else {
                let i4 = skip_sp(t, ye);
                if !(ye <= i4 <= t.len()) {
                    None
                } else if i4 < t.len() && t[i4] == ')' && i4 + 1 == t.len() {
                    Some(seq![(t.subrange(i, xe), t.subrange(i3, ye))])
                } else if i4 < t.len() && t[i4] == ',' {
                    let i5 = skip_sp(t, i4 + 1);
                    if !(i4 + 1 <= i5 <= t.len()) {
                        None
                    } else {
                        match wkt_pairs(t, i5) {
                            Some(rest) => Some(
                                seq![(t.subrange(i, xe), t.subrange(i3, ye))] + rest,
                            ),
                            None => None,
                        }
                    }
                } else {
                    None
                }
            }
        }
    }
}

/// The token pairs a line-string text yields, or `None` when it does
/// not match `LINESTRING *( *x1 +y1( *, *x2 +y2)* *)` after trimming.
pub open spec fn wkt_line_tokens(raw: Seq<char>) -> Option<Seq<(Seq<char>, Seq<char>)>> {
    let t = trimmed(raw);
    if t.len() < 10 || t.subrange(0, 10) != wkt_line_kw() {
        None
    } else {
        let i1 = skip_sp(t, 10);
        if !(i1 < t.len() && t[i1] == '(') {
            None
        } else {
            let i2 = skip_sp(t, i1 + 1);
            wkt_pairs(t, i2)
        }
    }
}

/// The text the formatter writes for a point with coordinate texts
/// `xt`, `yt`.
pub open spec fn wkt_point_text(xt: Seq<char>, yt: Seq<char>) -> Seq<char> {
    seq!['P', 'O', 'I', 'N', 'T', ' ', '('] + xt + seq![' '] + yt + seq![')']
}

/// The `x y` pairs joined by `, `.
pub open spec fn pairs_text(toks: Seq<(Seq<char>, Seq<char>)>) -> Seq<char>
    decreases toks.len(),
{
    if toks.len() == 0 {
        Seq::empty()
    } else if toks.len() == 1 {
        toks[0].0 + seq![' '] + toks[0].1
    } else {
        pairs_text(toks.drop_last()) + seq![',', ' '] + toks.last().0 + seq![' '] + toks.last().1
    }
}

/// The text the formatter writes for a line string with the given
/// coordinate texts.
pub open spec fn wkt_line_text(toks: Seq<(Seq<char>, Seq<char>)>) -> Seq<char> {
    seq!['L', 'I', 'N', 'E', 'S', 'T', 'R', 'I', 'N', 'G', ' ', '('] + pairs_text(toks) + seq![')']
}

/// The coordinate texts of a point sequence (meaningful when every
/// coordinate has one).
pub open spec fn point_texts<T: Coord>(ps: Seq<Point<T>>) -> Seq<(Seq<char>, Seq<char>)> {
    ps.map_values(|p: Point<T>| (p.x.text_opt()->Some_0, p.y.text_opt()->Some_0))
}

/// Does every point of `ps` have canonical text for both coordinates?
pub open spec fn all_texts_ok<T: Coord>(ps: Seq<Point<T>>) -> bool {
    forall|i: int|
        0 <= i < ps.len() ==> (#[trigger] ps[i]).x.text_opt() is Some && ps[i].y.text_opt()
            is Some
}

/// The first token of the pair list that does not parse as a
/// coordinate, reading left to right, x before y.
pub open spec fn first_bad_token<T: Coord>(toks: Seq<(Seq<char>, Seq<char>)>) -> Option<Seq<char>>
    decreases toks.len(),
{
    if toks.len() == 0 {
        None
    } else if T::of_text_spec(toks[0].0) is None {
        Some(toks[0].0)
    } else if T::of_text_spec(toks[0].1) is None {
        Some(toks[0].1)
    } else {
        first_bad_token::<T>(toks.drop_first())
    }
}

/// Skips spaces from `from`.
fn skip_spaces(s: &str, from: usize) -> (j: usize)
    requires
        from <= s@.len(),
    ensures
        j == skip_sp(s@, from as int),
        from <= j <= s@.len(),
{
    let n = s.unicode_len();
    let mut j: usize = from;
    while j < n && s.get_char(j) == ' '
        invariant
            from <= j <= n,
            n == s@.len(),
            skip_sp(s@, from as int) == skip_sp(s@, j as int),
        decreases n - j,
    {
        j += 1;
    }
    j
}

/// Scans the token run starting at `from`.
fn token_run_end(s: &str, from: usize) -> (j: usize)
    requires
        from <= s@.len(),
    ensures
        j == tok_end(s@, from as int),
        from <= j <= s@.len(),
{
    let n = s.unicode_len();
    let mut j: usize = from;
    loop
        invariant
            from <= j <= n,
            n == s@.len(),
            tok_end(s@, from as int) == tok_end(s@, j as int),
        decreases n - j,
    {
        if j >= n {
            return j;
        }
        let c = s.get_char(j);
        if c == ' ' || c == ')' || c == ',' || c == '(' {
            assert(!is_tok_char(s@[j as int]));
            return j;
        }
        assert(is_tok_char(s@[j as int]));
        j += 1;
    }
}

/// Trims surrounding whitespace, exactly as `trimmed` does.
fn trim_str(s: &str) -> (t: &str)
    ensures
        t@ == trimmed(s@),
{
    let n = s.unicode_len();
    let mut a: usize = 0;
    while a < n && (s.get_char(a) == ' ' || s.get_char(a) == '\t' || s.get_char(a) == '\n'
        || s.get_char(a) == '\r')
        invariant
            a <= n,
            n == s@.len(),
            trim_start_idx(s@, 0) == trim_start_idx(s@, a as int),
        decreases n - a,
    {
        a += 1;
    }
    assert(a == trim_start_idx(s@, 0));
    let mut b: usize = n;
    while b > a && (s.get_char(b - 1) == ' ' || s.get_char(b - 1) == '\t' || s.get_char(b - 1)
        == '\n' || s.get_char(b - 1) == '\r')
        invariant
            a <= b <= n,
            n == s@.len(),
            trim_end_idx(s@, a as int, n as int) == trim_end_idx(s@, a as int, b as int),
        decreases b,
    {
        b -= 1;
    }
    assert(b == trim_end_idx(s@, a as int, s@.len() as int));
    s.substring_char(a, b)
}

/// The conversion error formatting reports for the first point whose
/// coordinate has no canonical text, reading the points in order, x
/// before y; `None` when every coordinate formats.
pub open spec fn first_text_enc_err<T: Coord>(ps: Seq<crate::Point<T>>) -> Option<WkError>
    decreases ps.len(),
{
    if ps.len() == 0 {
        None
    } else if ps[0].x.text_opt() is None {
        Some(WkError::ConversionUnrepresentable(ConvField::CoordX, None))
    } else if ps[0].y.text_opt() is None {
        Some(WkError::ConversionUnrepresentable(ConvField::CoordY, None))
    } else {
        first_text_enc_err::<T>(ps.drop_first())
    }
}

/// Locates the first formatting failure from a clean prefix.
pub proof fn lemma_first_text_enc_at<T: Coord>(ps: Seq<crate::Point<T>>, i: int)
    requires
        0 <= i <= ps.len(),
        forall|j: int|
            0 <= j < i ==> (#[trigger] ps[j]).x.text_opt() is Some && ps[j].y.text_opt() is Some,
    ensures
        i == ps.len() ==> first_text_enc_err::<T>(ps) is None,
        i < ps.len() && ps[i].x.text_opt() is None ==> first_text_enc_err::<T>(ps) == Some(
            WkError::ConversionUnrepresentable(ConvField::CoordX, None),
        ),
        i < ps.len() && ps[i].x.text_opt() is Some && ps[i].y.text_opt() is None
            ==> first_text_enc_err::<T>(ps) == Some(
            WkError::ConversionUnrepresentable(ConvField::CoordY, None),
        ),
    decreases ps.len(),
{
    if i > 0 {
        let rest = ps.drop_first();
        assert(forall|j: int| 0 <= j < i - 1 ==> rest[j] == ps[j + 1]);
        lemma_first_text_enc_at::<T>(rest, i - 1);
        if i < ps.len() {
            assert(rest[i - 1] == ps[i]);
        }
    }
}

/// Formats a point as `POINT (x y)`; a conversion error naming the
/// coordinate when it has no canonical text.
pub fn point_to_wkt<T: Coord>(p: &Point<T>) -> (r: Result<String, WkError>)
    ensures
        match (p.x.text_opt(), p.y.text_opt()) {
            (Some(xt), Some(yt)) => r matches Ok(s) && s@ == wkt_point_text(xt, yt),
            (None, _) => r matches Err(e) && e == WkError::ConversionUnrepresentable(
                ConvField::CoordX,
                None,
            ),
            (Some(_), None) => r matches Err(e) && e == WkError::ConversionUnrepresentable(
                ConvField::CoordY,
                None,
            ),
        },
{
    let xs = match p.x.to_text() {
        Some(s) => s,
        None => {
            return Err(WkError::ConversionUnrepresentable(ConvField::CoordX, None));
        },
    };
    let ys = match p.y.to_text() {
        Some(s) => s,
        None => {
            return Err(WkError::ConversionUnrepresentable(ConvField::CoordY, None));
        },
    };
    let mut out = String::new();
    proof {
        reveal_strlit("POINT (");
        reveal_strlit(" ");
        reveal_strlit(")");
    }
    out.append("POINT (");
    out.append(xs.as_str());
    out.append(" ");
    out.append(ys.as_str());
    out.append(")");
    proof {
        assert(out@ =~= wkt_point_text(xs@, ys@));
    }
    Ok(out)
}

/// Formats a line string as `LINESTRING (x1 y1, x2 y2, ...)`; an empty
/// line gives `LINESTRING ()`; a conversion error when a coordinate has
/// no canonical text.
pub fn line_to_wkt<T: Coord>(l: &LineString<T>) -> (r: Result<String, WkError>)
    ensures
        if all_texts_ok(l.points@) {
            r matches Ok(s) && s@ == wkt_line_text(point_texts(l.points@))
        } else {
            r matches Err(e) && e == first_text_enc_err::<T>(l.points@)->Some_0
        },
{
    let mut out = String::new();
    proof {
        reveal_strlit("LINESTRING (");
        reveal_strlit(", ");
        reveal_strlit(" ");
        reveal_strlit(")");
    }
    out.append("LINESTRING (");
    let n = l.points.len();
    let mut i: usize = 0;
    while i < n
        invariant
            i <= n,
            n == l.points@.len(),
            forall|j: int|
                0 <= j < i ==> (#[trigger] l.points@[j]).x.text_opt() is Some
                    && l.points@[j].y.text_opt() is Some,
            out@ == seq!['L', 'I', 'N', 'E', 'S', 'T', 'R', 'I', 'N', 'G', ' ', '('] + pairs_text(
                point_texts(l.points@.take(i as int)),
            ),
        decreases n - i,
    {
        let xs = match l.points[i].x.to_text() {
            Some(s) => s,
            None => {
                proof {
                    lemma_first_text_enc_at::<T>(l.points@, i as int);
                }
                return Err(WkError::ConversionUnrepresentable(ConvField::CoordX, None));
            },
        };
        let ys = match l.points[i].y.to_text() {
            Some(s) => s,
            None => {
                proof {
                    lemma_first_text_enc_at::<T>(l.points@, i as int);
                }
                return Err(WkError::ConversionUnrepresentable(ConvField::CoordY, None));
            },
        };
        proof {
            reveal_strlit(", ");
            reveal_strlit(" ");
        }
        if i > 0 {
            out.append(", ");
        }
        out.append(xs.as_str());
        out.append(" ");
        out.append(ys.as_str());
        proof {
            let pre = point_texts(l.points@.take(i as int));
            let post = point_texts(l.points@.take(i as int + 1));
            assert(post.drop_last() =~= pre);
            assert(post.last() == (xs@, ys@));
            assert(pre.len() == i);
            if i == 0 {
                assert(pairs_text(post) =~= xs@ + seq![' '] + ys@);
            } else {
                assert(pairs_text(post) =~= pairs_text(pre) + seq![',', ' '] + xs@ + seq![' ']
                    + ys@);
            }
            assert(out@ =~= seq!['L', 'I', 'N', 'E', 'S', 'T', 'R', 'I', 'N', 'G', ' ', '(']
                + pairs_text(post));
        }
        i += 1;
    }
    out.append(")");
    proof {
        assert(l.points@.take(n as int) =~= l.points@);
        assert(out@ =~= wkt_line_text(point_texts(l.points@)));
    }
    Ok(out)
}

/// Parses `POINT (x y)`, exactly as `wkt_point_tokens` reads it: a
/// parse error for a grammar mismatch, and a parse error naming the
/// token when a coordinate does not parse.
pub fn point_from_wkt<T: Coord>(wkt: &str) -> (r: Result<Point<T>, WkError>)
    ensures
        match wkt_point_tokens(wkt@) {
            None => r matches Err(e) && e == WkError::ParseMalformed,
            Some((xt, yt)) => match (T::of_text_spec(xt), T::of_text_spec(yt)) {
                (Some(x), Some(y)) => r matches Ok(q) && q == (Point { x, y }),
                (None, _) => r matches Err(e) && (e matches WkError::ParseBadCoordinate(tok)
                    && tok@ == xt),
                (Some(_), None) => r matches Err(e) && (e matches WkError::ParseBadCoordinate(tok)
                    && tok@ == yt),
            },
        },
{
    let t = trim_str(wkt);
    let n = t.unicode_len();
    if n < 5 {
        return Err(WkError::ParseMalformed);
    }
    let kw_ok = t.get_char(0) == 'P' && t.get_char(1) == 'O' && t.get_char(2) == 'I' && t.get_char(
        3,
    ) == 'N' && t.get_char(4) == 'T';
    if !kw_ok {
        proof {
            assert(t@.subrange(0, 5) != wkt_point_kw());
        }
        return Err(WkError::ParseMalformed);
    }
    proof {
        assert(t@.subrange(0, 5) =~= wkt_point_kw());
    }
    let i1 = skip_spaces(t, 5);
    if !(i1 < n && t.get_char(i1) == '(') {
        return Err(WkError::ParseMalformed);
    }
    let i2 = skip_spaces(t, i1 + 1);
    let xe = token_run_end(t, i2);
    if xe == i2 {
        return Err(WkError::ParseMalformed);
    }
    let i3 = skip_spaces(t, xe);
    if i3 == xe {
        return Err(WkError::ParseMalformed);
    }
    let ye = token_run_end(t, i3);
    if ye == i3 {
        return Err(WkError::ParseMalformed);
    }
    let i4 = skip_spaces(t, ye);
    if !(i4 < n && t.get_char(i4) == ')' && i4 + 1 == n) {
        return Err(WkError::ParseMalformed);
    }
    let xs = t.substring_char(i2, xe);
    let ys = t.substring_char(i3, ye);
    let x = match T::from_text(xs) {
        Some(x) => x,
        None => {
            return Err(WkError::ParseBadCoordinate(String::from_str(xs)));
        },
    };
    let y = match T::from_text(ys) {
        Some(y) => y,
        None => {
            return Err(WkError::ParseBadCoordinate(String::from_str(ys)));
        },
    };
    Ok(Point { x, y })
}

/// Parses `LINESTRING (x1 y1, x2 y2, ...)`, exactly as
/// `wkt_line_tokens` reads it; at least one pair is required.  All
/// pairs are scanned before any coordinate is parsed, so a malformed
/// tail is reported as malformed even when an earlier token is bad.
pub fn line_from_wkt<T: Coord>(wkt: &str) -> (r: Result<LineString<T>, WkError>)
    ensures
        match wkt_line_tokens(wkt@) {
            None => r matches Err(e) && e == WkError::ParseMalformed,
            Some(toks) => match first_bad_token::<T>(toks) {
                Some(tok) => r matches Err(e) && (e matches WkError::ParseBadCoordinate(bt)
                    && bt@ == tok),
                None => r matches Ok(l) && l.points@.len() == toks.len() && (forall|i: int|
                    0 <= i < toks.len() ==> (#[trigger] l.points@[i]) == (Point {
                        x: T::of_text_spec(toks[i].0)->Some_0,
                        y: T::of_text_spec(toks[i].1)->Some_0,
                    })),
            },
        },
{
    let t = trim_str(wkt);
    let n = t.unicode_len();
    if n < 10 {
        return Err(WkError::ParseMalformed);
    }
    let kw_ok = t.get_char(0) == 'L' && t.get_char(1) == 'I' && t.get_char(2) == 'N' && t.get_char(
        3,
    ) == 'E' && t.get_char(4) == 'S' && t.get_char(5) == 'T' && t.get_char(6) == 'R' && t.get_char(
        7,
    ) == 'I' && t.get_char(8) == 'N' && t.get_char(9) == 'G';
    if !kw_ok {
        proof {
            assert(t@.subrange(0, 10) != wkt_line_kw());
        }
        return Err(WkError::ParseMalformed);
    }
    proof {
        assert(t@.subrange(0, 10) =~= wkt_line_kw());
    }
    let i1 = skip_spaces(t, 10);
    if !(i1 < n && t.get_char(i1) == '(') {
        return Err(WkError::ParseMalformed);
    }
    let start = skip_spaces(t, i1 + 1);
    let ghost toks_opt = wkt_pairs(t@, start as int);

    // first pass: scan every token pair
    let mut bounds: Vec<(usize, usize, usize, usize)> = Vec::new();
    proof {
        assert(wkt_line_tokens(wkt@) == toks_opt);
        match wkt_pairs(t@, start as int) {
            Some(rest) => {
                assert(seqs_of_bounds(t@, bounds@) + rest =~= rest);
            },
            None => {},
        }
    }
    let mut cur = start;
    let mut done = false;
    while !done
        invariant
            start <= cur <= n,
            n == t@.len(),
            wkt_line_tokens(wkt@) == toks_opt,
            toks_opt == wkt_pairs(t@, start as int),
            !done ==> match wkt_pairs(t@, cur as int) {
                Some(rest) => (toks_opt matches Some(all) && all == seqs_of_bounds(t@, bounds@)
                    + rest),
                None => toks_opt is None,
            },
            done ==> (toks_opt matches Some(all) && all == seqs_of_bounds(t@, bounds@)),
            forall|j: int|
                0 <= j < bounds@.len() ==> bound_ok(t@, #[trigger] bounds@[j]),
        decreases n - cur + (if done {
            0int
        } else {
            1int
        }),
    {
        let xe = token_run_end(t, cur);
        if xe == cur {
            return Err(WkError::ParseMalformed);
        }
        let i3 = skip_spaces(t, xe);
        if i3 == xe {
            return Err(WkError::ParseMalformed);
        }
        let ye = token_run_end(t, i3);
        if ye == i3 {
            return Err(WkError::ParseMalformed);
        }
        let i4 = skip_spaces(t, ye);
        let ghost old_bounds = bounds@;
        if i4 < n && t.get_char(i4) == ')' && i4 + 1 == n {
            bounds.push((cur, xe, i3, ye));
            done = true;
            proof {
                assert(seqs_of_bounds(t@, bounds@) =~= seqs_of_bounds(t@, old_bounds) + seq![
                    (t@.subrange(cur as int, xe as int), t@.subrange(i3 as int, ye as int)),
                ]);
            }
        } else if i4 < n && t.get_char(i4) == ',' {
            bounds.push((cur, xe, i3, ye));
            let next = skip_spaces(t, i4 + 1);
            proof {
                assert(seqs_of_bounds(t@, bounds@) =~= seqs_of_bounds(t@, old_bounds) + seq![
                    (t@.subrange(cur as int, xe as int), t@.subrange(i3 as int, ye as int)),
                ]);
                match wkt_pairs(t@, next as int) {
                    Some(rest) => {
                        assert(wkt_pairs(t@, cur as int) == Some(
                            seq![
                                (
                                    t@.subrange(cur as int, xe as int),
                                    t@.subrange(i3 as int, ye as int),
                                ),
                            ] + rest,
                        ));
                        assert(seqs_of_bounds(t@, old_bounds) + (seq![
                            (t@.subrange(cur as int, xe as int), t@.subrange(i3 as int, ye as int)),
                        ] + rest) =~= seqs_of_bounds(t@, bounds@) + rest);
                    },
                    None => {},
                }
            }
            cur = next;
        } else {
            return Err(WkError::ParseMalformed);
        }
    }

    // second pass: parse every token
    let m = bounds.len();
    let ghost toks = toks_opt->Some_0;
    proof {
        assert(toks == seqs_of_bounds(t@, bounds@));
        assert(toks.len() == m);
        assert(forall|j: int| 0 <= j < m ==> (#[trigger] toks[j]) == (
            t@.subrange(bounds@[j].0 as int, bounds@[j].1 as int),
            t@.subrange(bounds@[j].2 as int, bounds@[j].3 as int),
        ));
    }
    let mut res: LineString<T> = LineString::new_empty();
    let mut i: usize = 0;
    while i < m
        invariant
            i <= m,
            m == bounds@.len(),
            n == t@.len(),
            wkt_line_tokens(wkt@) == Some(toks),
            toks.len() == m,
            forall|j: int| 0 <= j < m ==> bound_ok(t@, #[trigger] bounds@[j]),
            forall|j: int| 0 <= j < m ==> (#[trigger] toks[j]) == (
                t@.subrange(bounds@[j].0 as int, bounds@[j].1 as int),
                t@.subrange(bounds@[j].2 as int, bounds@[j].3 as int),
            ),
            res.points@.len() == i,
            forall|j: int|
                0 <= j < i ==> T::of_text_spec((#[trigger] toks[j]).0) is Some && T::of_text_spec(
                    toks[j].1,
                ) is Some,
            forall|j: int|
                0 <= j < i ==> (#[trigger] res.points@[j]) == (Point {
                    x: T::of_text_spec(toks[j].0)->Some_0,
                    y: T::of_text_spec(toks[j].1)->Some_0,
                }),
        decreases m - i,
    {
        let (xs0, xe0, ys0, ye0) = *vstd::slice::slice_index_get(bounds.as_slice(), i);
        let xs = t.substring_char(xs0, xe0);
        let ys = t.substring_char(ys0, ye0);
        let x = match T::from_text(xs) {
            Some(x) => x,
            None => {
                proof {
                    lemma_first_bad_prefix::<T>(toks, i as int);
                }
                return Err(WkError::ParseBadCoordinate(String::from_str(xs)));
            },
        };
        let y = match T::from_text(ys) {
            Some(y) => y,
            None => {
                proof {
                    lemma_first_bad_prefix::<T>(toks, i as int);
                }
                return Err(WkError::ParseBadCoordinate(String::from_str(ys)));
            },
        };
        res.push_point(Point { x, y });
        i += 1;
    }
    proof {
        lemma_first_bad_prefix::<T>(toks, m as int);
    }
    Ok(res)
}

/// Are the four indices of one scanned pair within the text and
/// ordered?
pub open spec fn bound_ok(t: Seq<char>, b: (usize, usize, usize, usize)) -> bool {
    b.0 <= b.1 <= t.len() && b.2 <= b.3 <= t.len()
}

/// The token pairs a list of scanned index quadruples denotes.
pub open spec fn seqs_of_bounds(t: Seq<char>, bs: Seq<(usize, usize, usize, usize)>) -> Seq<
    (Seq<char>, Seq<char>),
> {
    bs.map_values(
        |b: (usize, usize, usize, usize)|
            (t.subrange(b.0 as int, b.1 as int), t.subrange(b.2 as int, b.3 as int)),
    )
}

/// Locates the first bad token from a clean prefix.
pub proof fn lemma_first_bad_prefix<T: Coord>(toks: Seq<(Seq<char>, Seq<char>)>, i: int)
    requires
        0 <= i <= toks.len(),
        forall|j: int|
            0 <= j < i ==> T::of_text_spec((#[trigger] toks[j]).0) is Some && T::of_text_spec(
                toks[j].1,
            ) is Some,
    ensures
        i == toks.len() ==> first_bad_token::<T>(toks) is None,
        i < toks.len() && T::of_text_spec(toks[i].0) is None ==> first_bad_token::<T>(toks)
            == Some(toks[i].0),
        i < toks.len() && T::of_text_spec(toks[i].0) is Some && T::of_text_spec(toks[i].1) is None
            ==> first_bad_token::<T>(toks) == Some(toks[i].1),
    decreases toks.len(),
{
    if i > 0 {
        let rest = toks.drop_first();
        assert(forall|j: int| 0 <= j < i - 1 ==> rest[j] == toks[j + 1]);
        lemma_first_bad_prefix::<T>(rest, i - 1);
        if i < toks.len() {
            assert(rest[i - 1] == toks[i]);
        }
    }
}

} // verus!
