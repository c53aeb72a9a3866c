//! The numeric conversion layer's wire side: integers to and from the
//! 64-bit IEEE-754 bit pattern that WKB carries.
//!
//! A finite double with sign bit `s`, biased exponent `e` and mantissa
//! `m` denotes `(-1)^s * (2^52 + m) * 2^(e - 1075)` (for `e > 0`).  The
//! codec needs exactly the integer-valued part of that space:
//! `wire_of_int` gives the (unique, canonical) bit pattern of an integer
//! with magnitude at most `2^53 - 1`, and `int_of_wire` reads a bit
//! pattern back as an integer when it denotes one in that range.  The
//! range is the contiguous one, in which every integer is exact; the
//! isolated exact integers beyond it are deliberately left out of the
//! model, and convert as unrepresentable in both directions.  Both
//! directions are proved to invert each other, which is what makes the
//! WKB round-trip laws hold.

use vstd::prelude::*;

use vstd::arithmetic::div_mod::{
    lemma_div_multiples_vanish, lemma_div_nonincreasing, lemma_fundamental_div_mod,
    lemma_fundamental_div_mod_converse, lemma_mod_multiples_basic,
};
use vstd::arithmetic::power2::{
    lemma2_to64, lemma2_to64_rest, lemma_pow2_adds, lemma_pow2_pos, lemma_pow2_strictly_increases,
    lemma_pow2_subtracts, pow2,
};

verus! {

/// The top of this wire model's integer range: `2^53 - 1`, the largest
/// magnitude below which *every* integer has an exact 64-bit float
/// form.  Isolated larger integers (`2^53`, `2^54`, ...) are exact
/// floats too, but lie outside the range this model carries: both
/// conversions report them unrepresentable, a deliberate cut.
pub const MAX_EXACT_INT: i64 = 9007199254740991;

/// The smallest: `-(2^53 - 1)`.
pub const MIN_EXACT_INT: i64 = -9007199254740991;

/// The bit pattern of IEEE-754 negative zero.
pub const NEG_ZERO_BITS: u64 = 0x8000_0000_0000_0000;

/// `2^52`, the weight of the exponent field.
pub const POW52: u64 = 0x10_0000_0000_0000;

/// The floor of the base-two logarithm.
pub open spec fn ilog2(n: nat) -> nat
    decreases n,
{
    if n <= 1 {
        0
    } else {
        1 + ilog2(n / 2)
    }
}

/// The IEEE-754 bit pattern of the integer `v`
/// (recommended: `|v| <= 2^53 - 1`).
pub open spec fn wire_of_int(v: int) -> u64 {
    if v == 0 {
        0
    } else {
        let mag = if v < 0 {
            (-v) as nat
        } else {
            v as nat
        };
        let k = ilog2(mag);
        let sign: nat = if v < 0 {
            pow2(63)
        } else {
            0
        };
        (sign + (1023 + k) * pow2(52) + (mag - pow2(k)) * pow2((52 - k) as nat)) as u64
    }
}

/// The integer a bit pattern denotes, if it denotes one of magnitude at
/// most `2^53 - 1`.  Both zero patterns denote 0.
pub open spec fn int_of_wire(w: u64) -> Option<int> {
    let e = ((w as nat) / pow2(52)) % pow2(11);
    let m = (w as nat) % pow2(52);
    let neg = w as nat >= pow2(63);
    if e == 0 {
        if m == 0 {
            Some(0int)
        } else {
            None
        }
    } else if 1023 <= e <= 1075 {
        let sh = (1075 - e) as nat;
        if m % pow2(sh) == 0 {
            let mag = (pow2(52) + m) / pow2(sh);
            Some(
                if neg {
                    -(mag as int)
                } else {
                    mag as int
                },
            )
        } else {
            None
        }
    } else {
        None
    }
}

/// `ilog2(n)` brackets `n` between two neighbouring powers of two.
pub proof fn lemma_ilog2_bounds(n: nat)
    requires
        n >= 1,
    ensures
        pow2(ilog2(n)) <= n < pow2(ilog2(n) + 1),
    decreases n,
{
    lemma2_to64();
    if n == 1 {
    } else {
        let k = ilog2(n / 2);
        lemma_ilog2_bounds(n / 2);
        lemma_fundamental_div_mod(n as int, 2);
        assert(pow2(k + 1) == 2 * pow2(k)) by {
            lemma_pow2_adds(k, 1);
        }
        assert(pow2(k + 2) == 2 * pow2(k + 1)) by {
            lemma_pow2_adds(k + 1, 1);
        }
    }
}

/// Only one `k` brackets `n`, so it is `ilog2(n)`.
pub proof fn lemma_ilog2_eq(n: nat, k: nat)
    requires
        pow2(k) <= n < pow2(k + 1),
    ensures
        ilog2(n) == k,
{
    lemma_pow2_pos(k);
    lemma_ilog2_bounds(n);
    let k2 = ilog2(n);
    if k2 < k {
        lemma_pow2_strictly_increases(k2 + 1, k + 1);
        if k2 + 1 < k {
            lemma_pow2_strictly_increases(k2 + 1, k);
        }
        assert(pow2(k2 + 1) <= pow2(k));
        assert(false);
    } else if k2 > k {
        if k + 1 < k2 {
            lemma_pow2_strictly_increases(k + 1, k2);
        }
        assert(pow2(k + 1) <= pow2(k2));
        assert(false);
    }
}

/// Splitting a bit pattern built as `s * 2^63 + e * 2^52 + m` back into
/// its fields.
pub proof fn lemma_wire_fields(s: nat, e: nat, m: nat)
    requires
        s <= 1,
        e < 2048,
        m < pow2(52),
    ensures
        s * pow2(63) + e * pow2(52) + m < pow2(64),
        ((s * pow2(63) + e * pow2(52) + m) / pow2(52)) % pow2(11) == e,
        (s * pow2(63) + e * pow2(52) + m) % pow2(52) == m,
        (s * pow2(63) + e * pow2(52) + m >= pow2(63)) <==> s == 1,
{
    lemma2_to64();
    lemma2_to64_rest();
    let w = s * pow2(63) + e * pow2(52) + m;
    let hi = s * pow2(11) + e;
    assert(s * pow2(63) == s * pow2(11) * pow2(52)) by {
        lemma_pow2_adds(11, 52);
        assert(s * (pow2(11) * pow2(52)) == s * pow2(11) * pow2(52)) by (nonlinear_arith);
    }
    assert(w == hi * pow2(52) + m) by (nonlinear_arith)
        requires
            w == s * pow2(11) * pow2(52) + e * pow2(52) + m,
            hi == s * pow2(11) + e,
    ;
    assert(hi < pow2(12)) by {
        assert(s * pow2(11) <= pow2(11));
    }
    assert(w < pow2(64)) by {
        assert(hi * pow2(52) <= (pow2(12) - 1) * pow2(52)) by (nonlinear_arith)
            requires
                hi <= pow2(12) - 1,
                pow2(52) > 0,
        ;
        lemma_pow2_adds(12, 52);
    }
    assert(w / pow2(52) == hi && w % pow2(52) == m) by {
        lemma_fundamental_div_mod_converse(w as int, pow2(52) as int, hi as int, m as int);
    }
    assert(hi % pow2(11) == e) by {
        lemma_fundamental_div_mod_converse(hi as int, pow2(11) as int, s as int, e as int);
        assert(hi / pow2(11) == s && hi % pow2(11) == e);
    }
    if s == 1 {
        assert(w >= pow2(63));
    } else {
        assert(w == e * pow2(52) + m);
        assert(e * pow2(52) <= 2047 * pow2(52)) by (nonlinear_arith)
            requires
                e <= 2047,
                pow2(52) > 0,
        ;
        assert(2048 * pow2(52) == pow2(63)) by {
            lemma_pow2_adds(11, 52);
        }
        assert(w < pow2(63));
    }
}

/// Decoding inverts encoding on the exact integer range.
pub proof fn lemma_int_wire_round_trip(v: int)
    requires
        -(pow2(53) - 1) <= v <= pow2(53) - 1,
    ensures
        int_of_wire(wire_of_int(v)) == Some(v),
{
    lemma2_to64();
    lemma2_to64_rest();
    if v == 0 {
        assert(pow2(52) > 0);
        assert((0nat / pow2(52)) % pow2(11) == 0);
        assert(0nat % pow2(52) == 0);
    } else {
        let mag = if v < 0 {
            (-v) as nat
        } else {
            v as nat
        };
        let k = ilog2(mag);
        lemma_ilog2_bounds(mag);
        assert(k <= 52) by {
            if k > 52 {
                lemma_pow2_strictly_increases(53, k);
                assert(pow2(53) <= pow2(k) <= mag);
                assert(false);
            }
        }
        let s: nat = if v < 0 {
            1
        } else {
            0
        };
        let r = (mag - pow2(k)) as nat;
        let m = r * pow2((52 - k) as nat);
        assert(pow2(k) * pow2((52 - k) as nat) == pow2(52)) by {
            lemma_pow2_adds(k, (52 - k) as nat);
        }
        assert(r < pow2(k));
        assert(m < pow2(52)) by (nonlinear_arith)
            requires
                r < pow2(k),
                m == r * pow2((52 - k) as nat),
                pow2(k) * pow2((52 - k) as nat) == pow2(52),
                pow2((52 - k) as nat) > 0,
        ;
        let e = (1023 + k) as nat;
        assert(wire_of_int(v) == (s * pow2(63) + e * pow2(52) + m) as u64);
        lemma_wire_fields(s, e, m);
        let w = (s * pow2(63) + e * pow2(52) + m) as u64;
        assert(((w as nat) / pow2(52)) % pow2(11) == e);
        assert((w as nat) % pow2(52) == m);
        assert(1023 <= e <= 1075);
        let sh = (1075 - e) as nat;
        assert(sh == 52 - k);
        assert(m % pow2(sh) == 0) by {
            lemma_pow2_pos(sh);
            lemma_mod_multiples_basic(r as int, pow2(sh) as int);
        }
        assert(pow2(52) == pow2(k) * pow2(sh)) by {
            lemma_pow2_adds(k, sh);
            assert(k + sh == 52);
        }
        assert(pow2(52) + m == pow2(sh) * mag) by (nonlinear_arith)
            requires
                pow2(52) == pow2(k) * pow2(sh),
                m == r * pow2(sh),
                mag == pow2(k) + r,
        ;
        assert((pow2(sh) * mag) as int / pow2(sh) as int == mag) by {
            lemma_pow2_pos(sh);
            lemma_div_multiples_vanish(mag as int, pow2(sh) as int);
        }
        assert((pow2(52) + m) / pow2(sh) == mag);
        assert((w as nat >= pow2(63)) <==> v < 0);
    }
}

/// A decoded integer's magnitude is at most `2^53 - 1`.
pub proof fn lemma_int_of_wire_range(w: u64)
    requires
        int_of_wire(w) is Some,
    ensures
        -(pow2(53) - 1) <= int_of_wire(w)->Some_0 <= pow2(53) - 1,
{
    lemma2_to64();
    lemma2_to64_rest();
    let e = ((w as nat) / pow2(52)) % pow2(11);
    let m = (w as nat) % pow2(52);
    if e != 0 {
        let sh = (1075 - e) as nat;
        lemma_pow2_pos(sh);
        lemma_div_nonincreasing((pow2(52) + m) as int, pow2(sh) as int);
        assert(pow2(52) + m <= pow2(53) - 1);
    }
}

/// Encoding inverts decoding, for every pattern except negative zero
/// (whose decoded value 0 re-encodes as positive zero).
#[verifier::rlimit(30)]
pub proof fn lemma_wire_int_round_trip(w: u64)
    requires
        int_of_wire(w) is Some,
        w != NEG_ZERO_BITS,
    ensures
        wire_of_int(int_of_wire(w)->Some_0) == w,
{
    lemma2_to64();
    lemma2_to64_rest();
    let e = ((w as nat) / pow2(52)) % pow2(11);
    let m = (w as nat) % pow2(52);
    let neg = w as nat >= pow2(63);
    let s: nat = if neg {
        1
    } else {
        0
    };
    assert(w as nat == s * pow2(63) + e * pow2(52) + m) by {
        let hi = (w as nat) / pow2(52);
        lemma_pow2_pos(pow2(52));
        lemma_fundamental_div_mod(w as int, pow2(52) as int);
        lemma_fundamental_div_mod(hi as int, pow2(11) as int);
        let s2 = hi / pow2(11);
        assert(w < pow2(64));
        assert(hi < pow2(12)) by {
            if hi >= pow2(12) {
                assert(hi * pow2(52) >= pow2(12) * pow2(52)) by (nonlinear_arith)
                    requires
                        hi >= pow2(12),
                        pow2(52) > 0,
                ;
                lemma_pow2_adds(12, 52);
                assert(w as nat >= pow2(64));
                assert(false);
            }
        }
        assert(s2 <= 1) by {
            if s2 >= 2 {
                assert(s2 * pow2(11) >= 2 * pow2(11)) by (nonlinear_arith)
                    requires
                        s2 >= 2,
                        pow2(11) > 0,
                ;
                assert(hi >= pow2(12));
                assert(false);
            }
        }
        assert(hi == s2 * pow2(11) + e);
        assert(hi * pow2(52) == s2 * pow2(11) * pow2(52) + e * pow2(52)) by (nonlinear_arith)
            requires
                hi == s2 * pow2(11) + e,
        ;
        assert(s2 * pow2(11) * pow2(52) == s2 * pow2(63)) by {
            lemma_pow2_adds(11, 52);
            assert(s2 * (pow2(11) * pow2(52)) == s2 * pow2(11) * pow2(52)) by (nonlinear_arith);
        }
        // the sign bit of the decomposition matches the comparison
        lemma_wire_fields(s2, e, m);
        assert(s2 == s);
    }
    if e == 0 {
        // both fields zero and not negative zero: the pattern is plain zero
        assert(m == 0);
        if s == 1 {
            assert(w as nat == pow2(63));
            assert(w == NEG_ZERO_BITS);
            assert(false);
        }
        assert(w as nat == 0);
        assert(int_of_wire(w)->Some_0 == 0);
    } else {
        let sh = (1075 - e) as nat;
        let k = (e - 1023) as nat;
        lemma_pow2_pos(sh);
        let mag = (pow2(52) + m) / pow2(sh);
        let q = m / pow2(sh);
        lemma_fundamental_div_mod(m as int, pow2(sh) as int);
        assert(m == q * pow2(sh)) by (nonlinear_arith)
            requires
                m == pow2(sh) * q + m % pow2(sh),
                m % pow2(sh) == 0,
        ;
        assert(pow2(52) == pow2(k) * pow2(sh)) by {
            lemma_pow2_adds(k, sh);
        }
        assert(pow2(52) + m == (pow2(k) + q) * pow2(sh)) by (nonlinear_arith)
            requires
                pow2(52) == pow2(k) * pow2(sh),
                m == q * pow2(sh),
        ;
        assert(pow2(52) + m == pow2(sh) * (pow2(k) + q)) by (nonlinear_arith)
            requires
                pow2(52) + m == (pow2(k) + q) * pow2(sh),
        ;
        assert((pow2(sh) * (pow2(k) + q)) as int / pow2(sh) as int == pow2(k) + q) by {
            lemma_pow2_pos(sh);
            lemma_div_multiples_vanish((pow2(k) + q) as int, pow2(sh) as int);
        }
        assert(mag == pow2(k) + q);
        assert(q < pow2(k)) by {
            if q >= pow2(k) {
                assert(q * pow2(sh) >= pow2(k) * pow2(sh)) by (nonlinear_arith)
                    requires
                        q >= pow2(k),
                        pow2(sh) > 0,
                ;
                assert(m >= pow2(52));
                assert(false);
            }
        }
        assert(pow2(k) <= mag < pow2(k + 1)) by {
            lemma_pow2_adds(k, 1);
        }
        lemma_ilog2_eq(mag, k);
        let v = int_of_wire(w)->Some_0;
        assert(v == if neg {
            -(mag as int)
        } else {
            mag as int
        });
        assert(mag >= 1);
        assert(v != 0);
        let vm = if v < 0 {
            (-v) as nat
        } else {
            v as nat
        };
        assert(vm == mag);
        assert(wire_of_int(v) == (s * pow2(63) + (1023 + k) * pow2(52) + (mag - pow2(k)) * pow2(
            (52 - k) as nat,
        )) as u64);
        assert((mag - pow2(k)) as nat == q);
        assert((52 - k) as nat == sh);
        assert(1023 + k == e);
        assert(q * pow2(sh) == m);
        assert(wire_of_int(v) == (s * pow2(63) + e * pow2(52) + m) as u64);
    }
}

/// Encodes an `i64` as its IEEE-754 bit pattern; `None` outside the
/// exactly representable range.
pub fn int_to_wire(v: i64) -> (r: Option<u64>)
    ensures
        MIN_EXACT_INT <= v <= MAX_EXACT_INT ==> r == Some(wire_of_int(v as int)),
        !(MIN_EXACT_INT <= v <= MAX_EXACT_INT) ==> r is None,
{
    proof {
        lemma2_to64();
        lemma2_to64_rest();
    }
    if v > MAX_EXACT_INT || v < MIN_EXACT_INT {
        return None;
    }
    if v == 0 {
        return Some(0);
    }
    let neg = v < 0;
    let mag: u64 = if neg {
        (-v) as u64
    } else {
        v as u64
    };
    assert(mag == if v < 0 {
        (-(v as int)) as nat
    } else {
        v as nat
    });
    assert(1 <= mag < pow2(53));
    let mut k: u64 = 0;
    let mut p: u64 = 1;
    while mag >= 2 * p
        invariant
            p == pow2(k as nat),
            p <= mag,
            1 <= mag < pow2(53),
            k <= 52,
            pow2(53) == 0x20_0000_0000_0000,
        decreases mag - p,
    {
        proof {
            lemma2_to64();
            lemma2_to64_rest();
            lemma_pow2_adds(k as nat, 1);
            if k >= 52 {
                assert(2 * p == pow2(53));
                assert(false);
            }
        }
        p = 2 * p;
        k = k + 1;
    }
    proof {
        lemma2_to64();
        lemma2_to64_rest();
        lemma_ilog2_eq(mag as nat, k as nat);
        lemma_pow2_subtracts(k as nat, 52);
        lemma_pow2_pos(k as nat);
    }
    let q: u64 = POW52 / p;
    assert(q == pow2((52 - k) as nat));
    proof {
        lemma_pow2_adds(k as nat, (52 - k) as nat);
        assert((mag - p) * q < pow2(52)) by (nonlinear_arith)
            requires
                p <= mag,
                mag - p < p,
                q == pow2((52 - k) as nat),
                p == pow2(k as nat),
                p * q == pow2(52),
                q > 0,
        ;
    }
    let frac: u64 = (mag - p) * q;
    let efield: u64 = (1023 + k) * POW52;
    proof {
        assert((1023 + k) * POW52 <= 1075 * POW52) by (nonlinear_arith)
            requires
                k <= 52,
                1023 + k <= 1075,
        ;
        lemma_wire_fields(if neg { 1nat } else { 0nat }, (1023 + k) as nat, frac as nat);
    }
    let w: u64 = if neg {
        0x8000_0000_0000_0000u64 + efield + frac
    } else {
        efield + frac
    };
    assert(w == wire_of_int(v as int));
    Some(w)
}

/// Decodes an IEEE-754 bit pattern into the integer it denotes, when it
/// denotes one in the exactly representable range.
pub fn wire_to_int(w: u64) -> (r: Option<i64>)
    ensures
        match int_of_wire(w) {
            Some(v) => r matches Some(x) && x as int == v,
            None => r is None,
        },
{
    proof {
        lemma2_to64();
        lemma2_to64_rest();
    }
    let e: u64 = (w / POW52) % 2048;
    let m: u64 = w % POW52;
    let neg = w >= 0x8000_0000_0000_0000u64;
    assert(e == ((w as nat) / pow2(52)) % pow2(11));
    assert(m == (w as nat) % pow2(52));
    assert(neg == (w as nat >= pow2(63)));
    if e == 0 {
        if m == 0 {
            Some(0)
        } else {
            None
        }
    } else if e < 1023 || e > 1075 {
        None
    } else {
        let sh: u64 = 1075 - e;
        let mut p2: u64 = 1;
        let mut i: u64 = 0;
        while i < sh
            invariant
                p2 == pow2(i as nat),
                i <= sh <= 52,
            decreases sh - i,
        {
            proof {
                lemma2_to64();
                lemma2_to64_rest();
                lemma_pow2_adds(i as nat, 1);
                lemma_pow2_strictly_increases(i as nat, 52);
            }
            p2 = 2 * p2;
            i = i + 1;
        }
        if m % p2 != 0 {
            None
        } else {
            proof {
                lemma_int_of_wire_range(w);
                lemma_pow2_pos(sh as nat);
                lemma_div_nonincreasing((POW52 + m) as int, p2 as int);
            }
            let mag: u64 = (POW52 + m) / p2;
            if neg {
                Some(-(mag as i64))
            } else {
                Some(mag as i64)
            }
        }
    }
}

} // verus!
