//! Doubles as bit patterns.
//!
//! The codecs never do floating-point arithmetic: every decision they make
//! about a double — is it NaN or an infinity, is it negative zero, is it an
//! integer small enough for an integer opcode — is a function of its IEEE-754
//! bit pattern, computed here with plain integer arithmetic.

use vstd::prelude::*;
use vstd::arithmetic::power2::{
    pow2,
    lemma_pow2_adds,
    lemma_pow2_strictly_increases,
    lemma2_to64,
    lemma2_to64_rest,
};

verus! {

/// The biased exponent field (11 bits).
pub open spec fn f_exp(bits: u64) -> u64 {
    (bits / 0x10000000000000) % 0x800
}

/// The mantissa field (52 bits).
pub open spec fn f_mant(bits: u64) -> u64 {
    bits % 0x10000000000000
}

/// The sign bit.
pub open spec fn f_neg(bits: u64) -> bool {
    bits >= 0x8000000000000000
}

/// NaN or an infinity: the exponent field is all ones.
pub open spec fn f_special(bits: u64) -> bool {
    f_exp(bits) == 0x7ff
}

pub open spec fn f_nan(bits: u64) -> bool {
    f_special(bits) && f_mant(bits) != 0
}

/// Positive or negative zero.
pub open spec fn f_zero(bits: u64) -> bool {
    f_exp(bits) == 0 && f_mant(bits) == 0
}

pub open spec fn f_neg_zero(bits: u64) -> bool {
    bits == 0x8000000000000000
}

/// The magnitude of a finite nonzero double as `mantissa * 2^exp / 2^52`,
/// given here only through the integer tests below.
///
/// A double is "int-like" when its fractional part is zero and its magnitude
/// is strictly below `2^31 - 1`: exactly the doubles the binary codec
/// re-classifies as integer opcodes.  The result is the integer value.
pub open spec fn float_int(bits: u64) -> Option<i64> {
    if f_special(bits) {
        Option::None
    } else if f_zero(bits) {
        Option::Some(0i64)
    } else if f_exp(bits) < 1023 {
        // nonzero magnitude below one: a fractional part remains
        Option::None
    } else {
        let e = f_exp(bits) - 1023;
        if e >= 31 {
            // magnitude at least 2^31, over the int gate
            Option::None
        } else if f_mant(bits) as nat % pow2((52 - e) as nat) != 0 {
            Option::None
        } else {
            let m = (0x10000000000000 + f_mant(bits)) as nat / pow2((52 - e) as nat);
            if m <= 2147483646 {
                Option::Some(
                    if f_neg(bits) {
                        (-(m as int)) as i64
                    } else {
                        m as i64
                    },
                )
            } else {
                Option::None
            }
        }
    }
}

/// As `float_int`, with the bound raised to `2^63`: the doubles whose
/// exact value is an integer small enough for decimal rendering.
pub open spec fn float_big_int(bits: u64) -> Option<i64> {
    if f_special(bits) {
        Option::None
    } else if f_zero(bits) {
        Option::Some(0i64)
    } else if f_exp(bits) < 1023 {
        Option::None
    } else {
        let e = f_exp(bits) - 1023;
        if e <= 51 {
            if f_mant(bits) as nat % pow2((52 - e) as nat) != 0 {
                Option::None
            } else {
                let m = (0x10000000000000 + f_mant(bits)) as nat / pow2((52 - e) as nat);
                Option::Some(
                    if f_neg(bits) {
                        (-(m as int)) as i64
                    } else {
                        m as i64
                    },
                )
            }
        } else if e <= 62 {
            let m = (0x10000000000000 + f_mant(bits)) as nat * pow2((e - 52) as nat);
            Option::Some(
                if f_neg(bits) {
                    (-(m as int)) as i64
                } else {
                    m as i64
                },
            )
        } else {
            Option::None
        }
    }
}

/// `floor(log2(n))` for `n >= 1` (and `0` for `n == 0`).
pub open spec fn ilog2(n: nat) -> nat
    decreases n,
{
    if n < 2 {
        0
    } else {
        1 + ilog2(n / 2)
    }
}

pub proof fn lemma_ilog2_bounds(n: nat)
    requires
        n >= 1,
    ensures
        pow2(ilog2(n)) <= n < pow2(ilog2(n) + 1),
    decreases n,
{
    if n < 2 {
        lemma2_to64();
    } else {
        lemma_ilog2_bounds(n / 2);
        let k = ilog2(n / 2);
        lemma_pow2_adds(k, 1);
        lemma2_to64();
        assert(pow2(k + 1) == 2 * pow2(k));
        assert(2 * (n / 2) <= n < 2 * (n / 2) + 2) by (nonlinear_arith);
        assert(pow2(k) <= n / 2 ==> 2 * pow2(k) <= 2 * (n / 2)) by (nonlinear_arith);
        assert(n / 2 < pow2(k + 1) ==> n / 2 + 1 <= pow2(k + 1)) by (nonlinear_arith);
        lemma_pow2_adds(k + 1, 1);
        assert(2 * (n / 2 + 1) <= 2 * pow2(k + 1)) by (nonlinear_arith)
            requires
                n / 2 + 1 <= pow2(k + 1),
        ;
    }
}

/// The magnitude of `i` as a `u64` (total, also at the most negative value).
pub open spec fn abs_u64(i: i64) -> nat {
    if i >= 0 {
        i as nat
    } else {
        (-(i as int)) as nat
    }
}

/// The bit pattern of the IEEE-754 double nearest to `i`, ties to even: what
/// the conversion of an `i64` to a double produces.
pub open spec fn f64_bits_of_i64(i: i64) -> u64 {
    if i == 0 {
        0u64
    } else {
        let sign: nat = if i < 0 {
            0x8000000000000000
        } else {
            0
        };
        let m = abs_u64(i);
        let p = ilog2(m);
        if p <= 52 {
            ((sign + (1023 + p) * 0x10000000000000 + (m * pow2((52 - p) as nat) - pow2(
                52,
            ))) as u64)
        } else {
            let sh = (p - 52) as nat;
            let keep = m / pow2(sh);
            let rest = m % pow2(sh);
            let half = pow2((sh - 1) as nat);
            let keep2: nat = if rest > half || (rest == half && keep % 2 == 1) {
                keep + 1
            } else {
                keep
            };
            if keep2 == pow2(53) {
                ((sign + (1024 + p) * 0x10000000000000) as u64)
            } else {
                ((sign + (1023 + p) * 0x10000000000000 + (keep2 - pow2(52))) as u64)
            }
        }
    }
}

/// The int-like value is within the 32-bit gate.
#[verifier::rlimit(100)]
pub proof fn lemma_float_int_range(bits: u64)
    ensures
        float_int(bits) is Some ==> -2147483646 <= float_int(bits)->Some_0 <= 2147483646,
{
    if !f_special(bits) && !f_zero(bits) && f_exp(bits) >= 1023 {
        let e = f_exp(bits) - 1023;
        if e < 31 {
            vstd::arithmetic::power2::lemma_pow2_pos((52 - e) as nat);
            let d = pow2((52 - e) as nat);
            if f_mant(bits) as nat % d == 0 {
                let m = (0x10000000000000 + f_mant(bits)) as nat / d;
                if m <= 2147483646 {
                    let mi: int = m as int;
                    assert(mi >= 0);
                    assert(mi <= 2147483646);
                    assert(0 - mi >= -2147483646);
                    assert((-(m as int)) as i64 == -(m as int));
                    assert((m as i64) as int == m as int);
                }
            }
        }
    }
}

/// The conversion of an `i64` to the bit pattern of the nearest double.
pub fn f64_bits_from_i64(i: i64) -> (r: u64)
    ensures
        r == f64_bits_of_i64(i),
{
    if i == 0 {
        return 0;
    }
    let sign: u64 = if i < 0 {
        0x8000000000000000
    } else {
        0
    };
    let m: u64 = if i >= 0 {
        i as u64
    } else {
        ((-(i + 1)) as u64) + 1
    };
    proof {
        assert(m == abs_u64(i));
    }
    // the position of the highest set bit
    let mut p: u64 = 0;
    let mut t: u64 = m;
    proof {
        lemma2_to64();
        assert(m as nat * pow2(0) == m as nat) by (nonlinear_arith)
            requires
                pow2(0) == 1,
        ;
    }
    while t >= 2
        invariant
            1 <= t,
            p <= 63,
            t as nat * pow2(p as nat) <= m as nat,
            ilog2(m as nat) == p + ilog2(t as nat),
        decreases t,
    {
        proof {
            lemma_pow2_adds(p as nat, 1);
            lemma2_to64();
            lemma2_to64_rest();
            if p == 63 {
                assert(t as nat * pow2(63) >= 2 * pow2(63)) by (nonlinear_arith)
                    requires
                        t >= 2,
                        pow2(63) > 0,
                ;
                assert(false);
            }
            assert((t as nat / 2) * (pow2(p as nat) * 2) <= t as nat * pow2(p as nat))
                by (nonlinear_arith)
                requires
                    t >= 2,
                    pow2(p as nat) > 0,
            ;
            assert(pow2((p + 1) as nat) == pow2(p as nat) * 2);
        }
        t = t / 2;
        p = p + 1;
    }
    proof {
        lemma_ilog2_bounds(m as nat);
        lemma2_to64();
        lemma2_to64_rest();
        if p > 64 {
            lemma_pow2_strictly_increases(64, p as nat);
        }
    }
    if p <= 52 {
        let mul = pow2_u64(52 - p);
        proof {
            lemma_pow2_adds(p as nat, (52 - p) as nat);
            lemma_pow2_adds((p + 1) as nat, (52 - p) as nat);
            assert(m as nat * pow2((52 - p) as nat) < pow2((p + 1) as nat) * pow2((52 - p) as nat))
                by (nonlinear_arith)
                requires
                    (m as nat) < pow2((p + 1) as nat),
                    pow2((52 - p) as nat) > 0,
            ;
            assert(pow2(p as nat) * pow2((52 - p) as nat) <= m as nat * pow2((52 - p) as nat))
                by (nonlinear_arith)
                requires
                    pow2(p as nat) <= (m as nat),
                    pow2((52 - p) as nat) > 0,
            ;
        }
        let full: u64 = m * mul;
        sign + (1023 + p) * 0x10000000000000 + (full - 0x10000000000000)
    } else {
        let sh: u64 = p - 52;
        let div = pow2_u64(sh);
        let keep: u64 = m / div;
        let rest: u64 = m % div;
        let half = pow2_u64(sh - 1);
        proof {
            lemma_pow2_adds((sh - 1) as nat, 1);
            lemma_pow2_adds(53, sh as nat);
            lemma_pow2_adds(52, sh as nat);
            assert(m as nat / pow2(sh as nat) < pow2(53)) by (nonlinear_arith)
                requires
                    (m as nat) < pow2((p + 1) as nat),
                    pow2(sh as nat) > 0,
                    pow2((p + 1) as nat) == pow2(53) * pow2(sh as nat),
            ;
            assert(pow2(52) <= m as nat / pow2(sh as nat)) by (nonlinear_arith)
                requires
                    pow2(p as nat) <= (m as nat),
                    pow2(sh as nat) > 0,
                    pow2(p as nat) == pow2(52) * pow2(sh as nat),
            ;
        }
        let keep2: u64 = if rest > half || (rest == half && keep % 2 == 1) {
            keep + 1
        } else {
            keep
        };
        if keep2 == 0x20000000000000 {
            proof {
                lemma2_to64_rest();
            }
            sign + (1024 + p) * 0x10000000000000
        } else {
            proof {
                lemma2_to64_rest();
            }
            sign + (1023 + p) * 0x10000000000000 + (keep2 - 0x10000000000000)
        }
    }
}

/// The bit fields of a pattern assembled from sign, exponent and mantissa.
pub proof fn lemma_fields_of_parts(sign_bit: nat, e: nat, man: nat)
    requires
        sign_bit == 0 || sign_bit == 1,
        e < 0x800,
        man < 0x10000000000000,
    ensures
        ({
            let bits = sign_bit * 0x8000000000000000 + e * 0x10000000000000 + man;
            &&& bits < 0x10000000000000000
            &&& f_exp((bits as u64)) == e
            &&& f_mant((bits as u64)) == man
            &&& (f_neg((bits as u64)) <==> sign_bit == 1)
        }),
{
    let bits = sign_bit * 0x8000000000000000 + e * 0x10000000000000 + man;
    let q = sign_bit * 0x800 + e;
    assert(sign_bit * 0x8000000000000000 == sign_bit * 0x800 * 0x10000000000000)
        by (nonlinear_arith);
    assert(e * 0x10000000000000 <= 0x7ff * 0x10000000000000) by (nonlinear_arith)
        requires
            e <= 0x7ff,
    ;
    assert(bits == q * 0x10000000000000 + man) by (nonlinear_arith)
        requires
            bits == sign_bit * 0x8000000000000000 + e * 0x10000000000000 + man,
            q == sign_bit * 0x800 + e,
            sign_bit * 0x8000000000000000 == sign_bit * 0x800 * 0x10000000000000,
    ;
    assert(bits < 0x10000000000000000);
    assert((bits as u64) as nat == bits);
    vstd::arithmetic::div_mod::lemma_fundamental_div_mod_converse(
        bits as int,
        0x10000000000000,
        q as int,
        man as int,
    );
    vstd::arithmetic::div_mod::lemma_fundamental_div_mod_converse(
        q as int,
        0x800,
        sign_bit as int,
        e as int,
    );
    assert(f_exp((bits as u64)) == e);
    assert(f_mant((bits as u64)) == man);
    if sign_bit == 1 {
        assert(bits >= 0x8000000000000000);
    } else {
        assert(bits < 0x8000000000000000);
    }
}

/// The bits built from a nonzero integer are never NaN, an infinity, or a
/// zero.
pub proof fn lemma_i64_bits_not_special(i: i64)
    requires
        i != 0,
    ensures
        !f_special(f64_bits_of_i64(i)),
        !f_neg_zero(f64_bits_of_i64(i)),
        !f_zero(f64_bits_of_i64(i)),
{
    lemma2_to64();
    lemma2_to64_rest();
    let m = abs_u64(i);
    let p = ilog2(m);
    lemma_ilog2_bounds(m);
    if p > 64 {
        lemma_pow2_strictly_increases(64, p);
    }
    let sign: nat = if i < 0 {
        0x8000000000000000
    } else {
        0
    };
    let sb: nat = if i < 0 {
        1
    } else {
        0
    };
    assert(sign == sb * 0x8000000000000000);
    if p <= 52 {
        lemma_pow2_adds(p, (52 - p) as nat);
        lemma_pow2_adds((p + 1) as nat, (52 - p) as nat);
        assert(m * pow2((52 - p) as nat) < pow2((p + 1) as nat) * pow2((52 - p) as nat))
            by (nonlinear_arith)
            requires
                m < pow2((p + 1) as nat),
                pow2((52 - p) as nat) > 0,
        ;
        assert(pow2(p) * pow2((52 - p) as nat) <= m * pow2((52 - p) as nat)) by (nonlinear_arith)
            requires
                pow2(p) <= m,
                pow2((52 - p) as nat) > 0,
        ;
        lemma_fields_of_parts(sb, 1023 + p, (m * pow2((52 - p) as nat) - pow2(52)) as nat);
    } else {
        let sh = (p - 52) as nat;
        let keep = m / pow2(sh);
        let rest = m % pow2(sh);
        let half = pow2((sh - 1) as nat);
        let keep2: nat = if rest > half || (rest == half && keep % 2 == 1) {
            keep + 1
        } else {
            keep
        };
        lemma_pow2_adds(53, sh);
        lemma_pow2_adds(52, sh);
        assert(m / pow2(sh) < pow2(53)) by (nonlinear_arith)
            requires
                m < pow2((p + 1) as nat),
                pow2(sh) > 0,
                pow2((p + 1) as nat) == pow2(53) * pow2(sh),
        ;
        assert(pow2(52) <= m / pow2(sh)) by (nonlinear_arith)
            requires
                pow2(p) <= m,
                pow2(sh) > 0,
                pow2(p) == pow2(52) * pow2(sh),
        ;
        if keep2 == pow2(53) {
            lemma_fields_of_parts(sb, 1024 + p, 0);
        } else {
            lemma_fields_of_parts(sb, 1023 + p, (keep2 - pow2(52)) as nat);
        }
    }
}

/// `2^k` for `k <= 63`.
pub fn pow2_u64(k: u64) -> (r: u64)
    requires
        k <= 63,
    ensures
        r as nat == pow2(k as nat),
        1 <= r,
{
    proof {
        lemma2_to64();
    }
    let mut r: u64 = 1;
    let mut j: u64 = 0;
    while j < k
        invariant
            0 <= j <= k <= 63,
            r as nat == pow2(j as nat),
        decreases k - j,
    {
        proof {
            lemma2_to64();
            lemma2_to64_rest();
            lemma_pow2_strictly_increases(j as nat, 63);
            lemma_pow2_adds(j as nat, 1);
        }
        r = r * 2;
        j = j + 1;
    }
    proof {
        vstd::arithmetic::power2::lemma_pow2_pos(k as nat);
    }
    r
}

/// Whether the double is NaN or an infinity.
pub fn float_special(bits: u64) -> (r: bool)
    ensures
        r == f_special(bits),
{
    (bits / 0x10000000000000) % 0x800 == 0x7ff
}

/// Whether the double is negative zero.
pub fn float_neg_zero(bits: u64) -> (r: bool)
    ensures
        r == f_neg_zero(bits),
{
    bits == 0x8000000000000000
}

/// Whether the double is NaN.
pub fn float_nan(bits: u64) -> (r: bool)
    ensures
        r == f_nan(bits),
{
    float_special(bits) && bits % 0x10000000000000 != 0
}

/// Whether the double's sign bit is set.
pub fn float_negative(bits: u64) -> (r: bool)
    ensures
        r == f_neg(bits),
{
    bits >= 0x8000000000000000
}

/// The int-like test of the binary numeric policy.
pub fn float_as_int(bits: u64) -> (r: Option<i64>)
    ensures
        r == float_int(bits),
{
    let exp: u64 = (bits / 0x10000000000000) % 0x800;
    let mant: u64 = bits % 0x10000000000000;
    if exp == 0x7ff {
        return Option::None;
    }
    if exp == 0 && mant == 0 {
        return Option::Some(0i64);
    }
    if exp < 1023 {
        return Option::None;
    }
    let e: u64 = exp - 1023;
    if e >= 31 {
        return Option::None;
    }
    let div: u64 = pow2_u64(52 - e);
    proof {
        lemma2_to64_rest();
        lemma_pow2_strictly_increases((52 - e) as nat, 63);
    }
    if mant % div != 0 {
        return Option::None;
    }
    let m: u64 = (0x10000000000000 + mant) / div;
    if m <= 2147483646 {
        if bits >= 0x8000000000000000 {
            Option::Some(-(m as i64))
        } else {
            Option::Some(m as i64)
        }
    } else {
        Option::None
    }
}

/// The integer value of a double that is exactly an integer below `2^63`.
pub fn float_as_big_int(bits: u64) -> (r: Option<i64>)
    ensures
        r == float_big_int(bits),
{
    let exp: u64 = (bits / 0x10000000000000) % 0x800;
    let mant: u64 = bits % 0x10000000000000;
    if exp == 0x7ff {
        return Option::None;
    }
    if exp == 0 && mant == 0 {
        return Option::Some(0i64);
    }
    if exp < 1023 {
        return Option::None;
    }
    let e: u64 = exp - 1023;
    if e <= 51 {
        let div: u64 = pow2_u64(52 - e);
        proof {
            lemma2_to64_rest();
            lemma_pow2_strictly_increases((52 - e) as nat, 63);
        }
        if mant % div != 0 {
            return Option::None;
        }
        let m: u64 = (0x10000000000000 + mant) / div;
        if bits >= 0x8000000000000000 {
            Option::Some(-(m as i64))
        } else {
            Option::Some(m as i64)
        }
    } else if e <= 62 {
        let mul: u64 = pow2_u64(e - 52);
        let ghost full = (0x10000000000000 + mant) as nat;
        proof {
            lemma2_to64();
            lemma2_to64_rest();
            assert(full < pow2(53));
            lemma_pow2_adds(53, (e - 52) as nat);
            lemma_pow2_strictly_increases((e - 52) as nat, 11);
            assert(full * pow2((e - 52) as nat) < pow2(53) * pow2((e - 52) as nat)) by (nonlinear_arith)
                requires
                    full < pow2(53),
                    pow2((e - 52) as nat) > 0,
            ;
            assert(pow2((53 + (e - 52)) as nat) <= pow2(63)) by {
                if 53 + e - 52 < 63 {
                    lemma_pow2_strictly_increases((53 + e - 52) as nat, 63);
                }
            }
        }
        let m: u64 = (0x10000000000000 + mant) * mul;
        if bits >= 0x8000000000000000 {
            Option::Some(-(m as i64))
        } else {
            Option::Some(m as i64)
        }
    } else {
        Option::None
    }
}

} // verus!
