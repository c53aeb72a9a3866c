//! Decimal text for integer values: the numeric conversion layer's
//! text side.
//!
//! `int_text` is the canonical decimal form of an integer (no sign for
//! zero and positive values, a leading `-` otherwise, no leading zeros),
//! and `text_to_i64_spec` is the value a token denotes: an optional `+`
//! or `-` sign followed by one or more decimal digits, within the `i64`
//! range.  The executable formatter and parser are proved exact against
//! these spec functions, and parsing is proved to invert formatting.

use vstd::prelude::*;

use vstd::arithmetic::div_mod::{lemma_div_is_strictly_smaller, lemma_fundamental_div_mod};

verus! {

/// Is `c` a decimal digit?
pub open spec fn is_digit_char(c: char) -> bool {
    48 <= c as u32 <= 57
}

/// Characters that may appear in a numeric token: digits and signs.
pub open spec fn is_plain_num_char(c: char) -> bool {
    is_digit_char(c) || c == '-' || c == '+'
}

/// The digit character for `d` (recommended: `d < 10`).
pub open spec fn digit_char(d: nat) -> char {
    if d == 0 {
        '0'
    } else if d == 1 {
        '1'
    } else if d == 2 {
        '2'
    } else if d == 3 {
        '3'
    } else if d == 4 {
        '4'
    } else if d == 5 {
        '5'
    } else if d == 6 {
        '6'
    } else if d == 7 {
        '7'
    } else if d == 8 {
        '8'
    } else {
        '9'
    }
}

/// The numeric value of a digit character (recommended: `is_digit_char(c)`).
pub open spec fn digit_val(c: char) -> nat {
    (c as u32 - 48) as nat
}

/// The decimal digit string of `n`, most significant digit first.
pub open spec fn dec_digits(n: nat) -> Seq<char>
    decreases n,
{
    if n < 10 {
        seq![digit_char(n)]
    } else {
        dec_digits(n / 10).push(digit_char(n % 10))
    }
}

/// The canonical decimal text of an integer.
pub open spec fn int_text(v: int) -> Seq<char> {
    if v < 0 {
        seq!['-'] + dec_digits((-v) as nat)
    } else {
        dec_digits(v as nat)
    }
}

/// Does every position of `t` hold a decimal digit?
pub open spec fn all_digits(t: Seq<char>) -> bool {
    forall|i: int| 0 <= i < t.len() ==> is_digit_char(t[i])
}

/// The value of a digit string, read in base ten.
pub open spec fn digits_val(t: Seq<char>) -> nat
    decreases t.len(),
{
    if t.len() == 0 {
        0
    } else {
        digits_val(t.drop_last()) * 10 + digit_val(t.last())
    }
}

/// The `i64` value a token denotes: an optional sign, then one or more
/// digits, rejected when out of the `i64` range.
pub open spec fn text_to_i64_spec(t: Seq<char>) -> Option<i64> {
    if t.len() > 0 && t[0] == '-' {
        let ds = t.skip(1);
        if ds.len() > 0 && all_digits(ds) && digits_val(ds) <= 0x8000_0000_0000_0000 {
            Some((-(digits_val(ds) as int)) as i64)
        } else {
            None
        }
    } else {
        let ds = if t.len() > 0 && t[0] == '+' {
            t.skip(1)
        } else {
            t
        };
        if ds.len() > 0 && all_digits(ds) && digits_val(ds) <= 0x7fff_ffff_ffff_ffff {
            Some(digits_val(ds) as i64)
        } else {
            None
        }
    }
}

/// The digit string of `n` is nonempty and holds digits only.
pub proof fn lemma_dec_digits_shape(n: nat)
    ensures
        dec_digits(n).len() > 0,
        all_digits(dec_digits(n)),
        is_digit_char(dec_digits(n)[0]),
    decreases n,
{
    if n < 10 {
        assert(dec_digits(n) =~= seq![digit_char(n)]);
    } else {
        lemma_dec_digits_shape(n / 10);
    }
}

/// The canonical text of an integer is a nonempty run of sign and digit
/// characters.
pub proof fn lemma_int_text_shape(v: int)
    ensures
        int_text(v).len() > 0,
        forall|i: int| 0 <= i < int_text(v).len() ==> is_plain_num_char(#[trigger] int_text(v)[i]),
        is_digit_char(int_text(v)[0]) || int_text(v)[0] == '-',
{
    if v < 0 {
        lemma_dec_digits_shape((-v) as nat);
    } else {
        lemma_dec_digits_shape(v as nat);
    }
}

/// Reading the digit string of `n` back gives `n`.
pub proof fn lemma_digits_val_of_dec_digits(n: nat)
    ensures
        digits_val(dec_digits(n)) == n,
    decreases n,
{
    if n < 10 {
        let s1 = dec_digits(n);
        assert(s1.drop_last() =~= Seq::<char>::empty());
        assert(digits_val(s1.drop_last()) == 0);
        assert(s1.last() == digit_char(n));
        assert(digit_val(digit_char(n)) == n);
        assert(digits_val(s1) == digits_val(s1.drop_last()) * 10 + digit_val(s1.last()));
    } else {
        lemma_digits_val_of_dec_digits(n / 10);
        assert(dec_digits(n).drop_last() =~= dec_digits(n / 10));
        lemma_fundamental_div_mod(n as int, 10);
    }
}

/// Parsing inverts formatting: the canonical text of any `i64` parses
/// back to the same value.
pub proof fn lemma_text_round_trip_i64(v: i64)
    ensures
        text_to_i64_spec(int_text(v as int)) == Some(v),
{
    let t = int_text(v as int);
    if v < 0 {
        let m = (-(v as int)) as nat;
        lemma_dec_digits_shape(m);
        lemma_digits_val_of_dec_digits(m);
        assert(t[0] == '-');
        assert(t.skip(1) =~= dec_digits(m));
        assert(m <= 0x8000_0000_0000_0000);
        assert((-(m as int)) as i64 == v);
    } else {
        let m = v as nat;
        lemma_dec_digits_shape(m);
        lemma_digits_val_of_dec_digits(m);
        assert(t == dec_digits(m));
        assert(is_digit_char(t[0]));
        assert(t[0] != '-' && t[0] != '+');
        assert(m <= 0x7fff_ffff_ffff_ffff);
    }
}

/// A prefix of a digit string never exceeds the whole string's value.
pub proof fn lemma_digits_val_prefix_le(t: Seq<char>, j: int)
    requires
        0 <= j <= t.len(),
    ensures
        digits_val(t.take(j)) <= digits_val(t),
    decreases t.len() - j,
{
    if j == t.len() {
        assert(t.take(j) =~= t);
    } else {
        lemma_digits_val_prefix_le(t.drop_last(), j);
        assert(t.drop_last().take(j) =~= t.take(j));
    }
}

/// Extending a digit prefix by one digit multiplies its value by ten and
/// adds the new digit.
pub proof fn lemma_digits_val_step(t: Seq<char>, j: int)
    requires
        0 <= j < t.len(),
    ensures
        digits_val(t.take(j + 1)) == digits_val(t.take(j)) * 10 + digit_val(t[j]),
{
    assert(t.take(j + 1).drop_last() =~= t.take(j));
    assert(t.take(j + 1).last() == t[j]);
}

/// The digit string literal for one digit.
fn digit_str(d: u64) -> (s: &'static str)
    requires
        d < 10,
    ensures
        s@ =~= seq![digit_char(d as nat)],
{
    proof {
        reveal_strlit("0");
        reveal_strlit("1");
        reveal_strlit("2");
        reveal_strlit("3");
        reveal_strlit("4");
        reveal_strlit("5");
        reveal_strlit("6");
        reveal_strlit("7");
        reveal_strlit("8");
        reveal_strlit("9");
    }
    match d {
        0 => "0",
        1 => "1",
        2 => "2",
        3 => "3",
        4 => "4",
        5 => "5",
        6 => "6",
        7 => "7",
        8 => "8",
        _ => "9",
    }
}

/// Appends the decimal digits of `n` to `out`.
fn push_dec_digits(n: u64, out: &mut String)
    ensures
        final(out)@ == old(out)@ + dec_digits(n as nat),
    decreases n,
{
    if n < 10 {
        out.append(digit_str(n));
    } else {
        proof {
            lemma_div_is_strictly_smaller(n as int, 10);
        }
        push_dec_digits(n / 10, out);
        out.append(digit_str(n % 10));
        proof {
            assert(old(out)@ + dec_digits((n / 10) as nat) + seq![digit_char((n % 10) as nat)]
                =~= old(out)@ + dec_digits(n as nat));
        }
    }
}

/// Formats an `i64` in its canonical decimal form.
pub fn i64_to_text(v: i64) -> (s: String)
    ensures
        s@ == int_text(v as int),
{
    let mut out = String::new();
    if v < 0 {
        proof {
            reveal_strlit("-");
        }
        out.append("-");
        let mag: u64 = if v == i64::MIN {
            9223372036854775808u64
        } else {
            (-v) as u64
        };
        assert(mag == -(v as int));
        push_dec_digits(mag, &mut out);
        proof {
            assert(Seq::<char>::empty() + "-"@ + dec_digits(mag as nat) =~= int_text(v as int));
        }
    } else {
        push_dec_digits(v as u64, &mut out);
        proof {
            assert(Seq::<char>::empty() + dec_digits(v as nat) =~= int_text(v as int));
        }
    }
    out
}

/// Parses a decimal token into an `i64`, exactly as `text_to_i64_spec`
/// reads it: `None` for an empty token, a stray character, or a value
/// out of range.
pub fn text_to_i64(s: &str) -> (r: Option<i64>)
    ensures
        r == text_to_i64_spec(s@),
{
    let len = s.unicode_len();
    if len == 0 {
        return None;
    }
    let first = s.get_char(0);
    let mut idx: usize = 0;
    let mut neg = false;
    if first == '-' {
        neg = true;
        idx = 1;
    } else if first == '+' {
        idx = 1;
    }
    if idx == len {
        assert(s@.skip(idx as int).len() == 0);
        return None;
    }
    let ghost ds = s@.skip(idx as int);
    proof {
        assert(s@.skip(0) =~= s@);
    }
    let limit: u64 = if neg {
        9223372036854775808u64
    } else {
        9223372036854775807u64
    };
    let mut acc: u64 = 0;
    let mut j: usize = idx;
    while j < len
        invariant
            idx <= j <= len,
            len == s@.len(),
            idx <= 1,
            ds == s@.skip(idx as int),
            idx == 0 ==> ds == s@,
            neg ==> idx == 1 && s@[0] == '-',
            !neg && idx == 1 ==> s@[0] == '+',
            idx == 0 ==> !neg && s@[0] != '-' && s@[0] != '+',
            !neg ==> limit == 0x7fff_ffff_ffff_ffff,
            neg ==> limit == 0x8000_0000_0000_0000,
            acc == digits_val(ds.take(j - idx)),
            acc <= limit,
            forall|k: int| 0 <= k < j - idx ==> is_digit_char(ds[k]),
        decreases len - j,
    {
        let c = s.get_char(j);
        let u = c as u32;
        if u < 48 || u > 57 {
            assert(ds[j - idx] == c && !is_digit_char(c));
            assert(!all_digits(ds));
            return None;
        }
        assert(is_digit_char(c));
        let d = (u - 48) as u64;
        assert(d == digit_val(c) && d <= 9);
        if acc > (limit - d) / 10 {
            proof {
                lemma_fundamental_div_mod((limit - d) as int, 10);
                assert(acc * 10 + d > limit) by (nonlinear_arith)
                    requires
                        acc >= (limit - d) / 10 + 1,
                        (limit - d) == 10 * ((limit - d) / 10) + (limit - d) % 10,
                        0 <= (limit - d) % 10 < 10,
                        d <= limit,
                ;
                assert(ds[j - idx] == c);
                lemma_digits_val_step(ds, j - idx);
                lemma_digits_val_prefix_le(ds, j - idx + 1);
                assert(digits_val(ds) > limit);
            }
            return None;
        }
        proof {
            lemma_fundamental_div_mod((limit - d) as int, 10);
            assert(acc * 10 + d <= limit) by (nonlinear_arith)
                requires
                    acc <= (limit - d) / 10,
                    (limit - d) == 10 * ((limit - d) / 10) + (limit - d) % 10,
                    0 <= (limit - d) % 10 < 10,
                    d <= limit,
            ;
            lemma_digits_val_step(ds, j - idx);
        }
        acc = acc * 10 + d;
        j += 1;
    }
    proof {
        assert(ds.take(len - idx) =~= ds);
        assert(acc == digits_val(ds));
        assert(ds.len() > 0 && all_digits(ds));
    }
    if neg {
        if acc == 9223372036854775808u64 {
            Some(i64::MIN)
        } else {
            Some(-(acc as i64))
        }
    } else {
        Some(acc as i64)
    }
}

} // verus!
