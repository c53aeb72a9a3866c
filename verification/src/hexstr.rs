//! The hex-string transport: lowercase hex encoding of a byte buffer,
//! and decoding that accepts both letter cases.
//!
//! `bytes_to_hex` gives the exact character sequence the encoder
//! produces (two digits per byte, high nibble first), `hex_to_bytes`
//! the bytes a string denotes, or `None` when the length is odd or a
//! character is not a hex digit.  Decoding is proved to invert encoding.

use vstd::prelude::*;

verus! {

/// The lowercase hex digit for `d` (recommended: `d < 16`).
pub open spec fn hex_digit_char(d: nat) -> char {
    if d == 0 {
        '0'
    } else if d == 1 {
        '1'
    } else if d == 2 {
        '2'
    } else if d == 3 {
        '3'
    } else if d == 4 {
        '4'
    } else if d == 5 {
        '5'
    } else if d == 6 {
        '6'
    } else if d == 7 {
        '7'
    } else if d == 8 {
        '8'
    } else if d == 9 {
        '9'
    } else if d == 10 {
        'a'
    } else if d == 11 {
        'b'
    } else if d == 12 {
        'c'
    } else if d == 13 {
        'd'
    } else if d == 14 {
        'e'
    } else {
        'f'
    }
}

/// The value of a hex digit character, either case; `None` otherwise.
pub open spec fn hex_digit_val(c: char) -> Option<u8> {
    let u = c as u32;
    if 48 <= u <= 57 {
        Some((u - 48) as u8)
    } else if 97 <= u <= 102 {
        Some((u - 87) as u8)
    } else if 65 <= u <= 70 {
        Some((u - 55) as u8)
    } else {
        None
    }
}

/// The lowercase hex text of a byte buffer.
pub open spec fn bytes_to_hex(b: Seq<u8>) -> Seq<char>
    decreases b.len(),
{
    if b.len() == 0 {
        Seq::empty()
    } else {
        bytes_to_hex(b.drop_last()) + seq![
            hex_digit_char((b.last() / 16) as nat),
            hex_digit_char((b.last() % 16) as nat),
        ]
    }
}

/// Is every character of `t` a hex digit?
pub open spec fn all_hex_digits(t: Seq<char>) -> bool {
    forall|i: int| 0 <= i < t.len() ==> hex_digit_val(#[trigger] t[i]) is Some
}

/// The bytes a hex string denotes: `None` on odd length or a stray
/// character.
pub open spec fn hex_to_bytes(t: Seq<char>) -> Option<Seq<u8>> {
    if t.len() % 2 == 0 && all_hex_digits(t) {
        Some(
            Seq::new(
                (t.len() / 2) as nat,
                |i: int| (hex_digit_val(t[2 * i])->Some_0 * 16 + hex_digit_val(
                    t[2 * i + 1],
                )->Some_0) as u8,
            ),
        )
    } else {
        None
    }
}

/// A hex digit's character reads back as its value.
pub proof fn lemma_hex_digit_round(d: nat)
    requires
        d < 16,
    ensures
        hex_digit_val(hex_digit_char(d)) == Some(d as u8),
{
}

/// Decoding inverts encoding.
pub proof fn lemma_hex_round_trip(b: Seq<u8>)
    ensures
        bytes_to_hex(b).len() == 2 * b.len(),
        hex_to_bytes(bytes_to_hex(b)) == Some(b),
    decreases b.len(),
{
    let t = bytes_to_hex(b);
    if b.len() == 0 {
        assert(all_hex_digits(t));
        assert(hex_to_bytes(t)->Some_0 =~= b);
    } else {
        let pre = b.drop_last();
        lemma_hex_round_trip(pre);
        let tp = bytes_to_hex(pre);
        let hi = (b.last() / 16) as nat;
        let lo = (b.last() % 16) as nat;
        lemma_hex_digit_round(hi);
        lemma_hex_digit_round(lo);
        assert(t == tp + seq![hex_digit_char(hi), hex_digit_char(lo)]);
        assert(all_hex_digits(t)) by {
            assert(forall|i: int| 0 <= i < tp.len() ==> t[i] == tp[i]);
            assert(t[t.len() - 2] == hex_digit_char(hi));
            assert(t[t.len() - 1] == hex_digit_char(lo));
        }
        assert(t.len() % 2 == 0);
        let dec = hex_to_bytes(t)->Some_0;
        assert(dec =~= b) by {
            assert(dec.len() == b.len());
            assert forall|i: int| 0 <= i < b.len() implies dec[i] == b[i] by {
                if i < b.len() - 1 {
                    assert(t[2 * i] == tp[2 * i]);
                    assert(t[2 * i + 1] == tp[2 * i + 1]);
                    assert(hex_to_bytes(tp)->Some_0[i] == pre[i]);
                    assert(pre[i] == b[i]);
                } else {
                    assert(t[2 * i] == hex_digit_char(hi));
                    assert(t[2 * i + 1] == hex_digit_char(lo));
                    assert(b.last() == 16 * (b.last() / 16) + b.last() % 16);
                }
            }
        }
    }
}

/// The two-character literal for one byte's nibble.
fn hex_digit_str(d: u8) -> (s: &'static str)
    requires
        d < 16,
    ensures
        s@ =~= seq![hex_digit_char(d as nat)],
{
    proof {
        reveal_strlit("0");
        reveal_strlit("1");
        reveal_strlit("2");
        reveal_strlit("3");
        reveal_strlit("4");
        reveal_strlit("5");
        reveal_strlit("6");
        reveal_strlit("7");
        reveal_strlit("8");
        reveal_strlit("9");
        reveal_strlit("a");
        reveal_strlit("b");
        reveal_strlit("c");
        reveal_strlit("d");
        reveal_strlit("e");
        reveal_strlit("f");
    }
    match d {
        0 => "0",
        1 => "1",
        2 => "2",
        3 => "3",
        4 => "4",
        5 => "5",
        6 => "6",
        7 => "7",
        8 => "8",
        9 => "9",
        10 => "a",
        11 => "b",
        12 => "c",
        13 => "d",
        14 => "e",
        _ => "f",
    }
}

/// Encodes a byte buffer as lowercase hex.
pub fn encode_hex(bytes: &Vec<u8>) -> (s: String)
    ensures
        s@ == bytes_to_hex(bytes@),
{
    let mut out = String::new();
    let n = bytes.len();
    let mut i: usize = 0;
    while i < n
        invariant
            i <= n,
            n == bytes@.len(),
            out@ == bytes_to_hex(bytes@.take(i as int)),
        decreases n - i,
    {
        let b = bytes[i];
        out.append(hex_digit_str(b / 16));
        out.append(hex_digit_str(b % 16));
        proof {
            let pre = bytes@.take(i as int);
            let post = bytes@.take(i as int + 1);
            assert(post.drop_last() =~= pre);
            assert(post.last() == bytes@[i as int]);
            assert(out@ =~= bytes_to_hex(post));
        }
        i += 1;
    }
    proof {
        assert(bytes@.take(n as int) =~= bytes@);
    }
    out
}

/// Decodes a hex string; `None` exactly when `hex_to_bytes` says so.
pub fn decode_hex(s: &str) -> (r: Option<Vec<u8>>)
    ensures
        match r {
            Some(v) => hex_to_bytes(s@) == Some(v@),
            None => hex_to_bytes(s@) is None,
        },
{
    let len = s.unicode_len();
    if len % 2 != 0 {
        return None;
    }
    let half = len / 2;
    let mut out: Vec<u8> = Vec::new();
    let mut i: usize = 0;
    while i < half
        invariant
            i <= half,
            len == s@.len(),
            len % 2 == 0,
            half == len / 2,
            out@.len() == i,
            forall|j: int| 0 <= j < 2 * i ==> hex_digit_val(#[trigger] s@[j]) is Some,
            forall|j: int|
                0 <= j < i ==> out@[j] == (hex_digit_val(s@[2 * j])->Some_0 * 16 + hex_digit_val(
                    s@[2 * j + 1],
                )->Some_0) as u8,
        decreases half - i,
    {
        let c1 = s.get_char(2 * i);
        let c2 = s.get_char(2 * i + 1);
        let d1 = match hex_val(c1) {
            Some(d) => d,
            None => {
                return None;
            },
        };
        let d2 = match hex_val(c2) {
            Some(d) => d,
            None => {
                return None;
            },
        };
        out.push(d1 * 16 + d2);
        i += 1;
    }
    proof {
        assert(all_hex_digits(s@));
        assert(hex_to_bytes(s@)->Some_0 =~= out@);
    }
    Some(out)
}

/// Reads one hex digit character.
fn hex_val(c: char) -> (r: Option<u8>)
    ensures
        r == hex_digit_val(c),
{
    let u = c as u32;
    if u >= 48 && u <= 57 {
        Some((u - 48) as u8)
    } else if u >= 97 && u <= 102 {
        Some((u - 87) as u8)
    } else if u >= 65 && u <= 70 {
        Some((u - 55) as u8)
    } else {
        None
    }
}

} // verus!
