//! Doubles read as bit patterns. The calculator decides on the exponent of
//! `^` from the number that its right operand holds; here that number is a
//! 64-bit pattern, and what is decided is stated over whole numbers.

use vstd::arithmetic::div_mod::*;
use vstd::arithmetic::power2::*;
use vstd::prelude::*;

verus! {

/// Two to the power 52: the weight of the hidden bit of a significand.
pub const HIDDEN_BIT: u64 = 0x10_0000_0000_0000;

/// Two to the power 32.
pub const WORD: u64 = 0x1_0000_0000;

/// Whether the sign bit is set.
pub open spec fn negative(bits: u64) -> bool {
    bits >= 0x8000_0000_0000_0000
}

/// The eleven exponent bits.
pub open spec fn exponent_field(bits: u64) -> nat {
    ((bits / HIDDEN_BIT) % 0x800) as nat
}

/// The 52 fraction bits.
pub open spec fn fraction_field(bits: u64) -> nat {
    (bits % HIDDEN_BIT) as nat
}

/// Whether `bits` is the pattern of a NaN: all exponent bits set and a
/// fraction that is not zero.
pub open spec fn is_nan(bits: u64) -> bool {
    exponent_field(bits) == 0x7ff && fraction_field(bits) != 0
}

/// Whether `bits` is the pattern of an infinity.
pub open spec fn is_infinite(bits: u64) -> bool {
    exponent_field(bits) == 0x7ff && fraction_field(bits) == 0
}

/// The bit pattern that stands for every NaN.
pub open spec fn quiet_nan() -> u64 {
    0x7ff8_0000_0000_0000
}

/// `bits` with every NaN folded into [`quiet_nan`].
pub open spec fn canonical(bits: u64) -> u64 {
    if is_nan(bits) {
        quiet_nan()
    } else {
        bits
    }
}

/// The significand of a finite double as a whole number: the fraction, with
/// the hidden bit for a normal number.
pub open spec fn significand(bits: u64) -> nat {
    if exponent_field(bits) == 0 {
        fraction_field(bits)
    } else {
        HIDDEN_BIT as nat + fraction_field(bits)
    }
}

/// The power of two that the significand is scaled by, counted from the
/// smallest one, two to the power -1074.
pub open spec fn shift(bits: u64) -> nat {
    if exponent_field(bits) == 0 {
        0
    } else {
        (exponent_field(bits) - 1) as nat
    }
}

/// The absolute value of a finite double, times two to the power 1074: a
/// whole number.
pub open spec fn scaled(bits: u64) -> nat {
    significand(bits) * pow2(shift(bits))
}

/// Whether the absolute value is at least one. A NaN is not.
pub open spec fn reaches_one(bits: u64) -> bool {
    !is_nan(bits) && (is_infinite(bits) || scaled(bits) >= pow2(1074))
}

/// The whole number nearest to `s / 2^1074`, a half going up.
pub open spec fn nearest(s: nat) -> nat {
    (2 * s + pow2(1074)) / pow2(1075)
}

/// A finite double rounded to the nearest whole number, a half going away
/// from zero.
pub open spec fn rounded(bits: u64) -> int {
    if negative(bits) {
        -(nearest(scaled(bits)) as int)
    } else {
        nearest(scaled(bits)) as int
    }
}

/// The double rounded and then brought into `i8`: what is too large becomes
/// the nearest end of the range, and a NaN becomes zero.
pub open spec fn nearest_power(bits: u64) -> i8 {
    if is_nan(bits) {
        0
    } else if is_infinite(bits) {
        if negative(bits) {
            -128i8
        } else {
            127i8
        }
    } else if rounded(bits) > 127 {
        127i8
    } else if rounded(bits) < -128 {
        -128i8
    } else {
        rounded(bits) as i8
    }
}

/// The double rounded, reduced to its least remainder modulo two to the
/// power 32 that is not negative, and then brought into `i8`. A NaN and an
/// infinity become zero.
pub open spec fn nearest_degree(bits: u64) -> i8 {
    if is_nan(bits) || is_infinite(bits) {
        0
    } else if rounded(bits) % (WORD as int) > 127 {
        127
    } else {
        (rounded(bits) % (WORD as int)) as i8
    }
}

/// Folding the NaNs changes nothing that is decided from a pattern.
pub proof fn lemma_canonical_decides_alike(bits: u64)
    ensures
        is_nan(canonical(bits)) == is_nan(bits),
        reaches_one(canonical(bits)) == reaches_one(bits),
        nearest_power(canonical(bits)) == nearest_power(bits),
        nearest_degree(canonical(bits)) == nearest_degree(bits),
        canonical(canonical(bits)) == canonical(bits),
{
    assert(is_nan(quiet_nan()));
}

/// Below a half, the nearest whole number is zero.
proof fn lemma_nearest_zero(s: nat)
    requires
        s < pow2(1073),
    ensures
        nearest(s) == 0,
{
    lemma_pow2_unfold(1074);
    lemma_pow2_unfold(1075);
    lemma_pow2_pos(1073);
    lemma_basic_div((2 * s + pow2(1074)) as int, pow2(1075) as int);
}

/// From a half up to one, the nearest whole number is one.
proof fn lemma_nearest_one(s: nat)
    requires
        pow2(1073) <= s < pow2(1074),
    ensures
        nearest(s) == 1,
{
    lemma_pow2_unfold(1074);
    lemma_pow2_unfold(1075);
    lemma_pow2_pos(1073);
    let d = pow2(1075) as int;
    let x = (2 * s + pow2(1074)) as int;
    lemma_fundamental_div_mod_converse(x, d, 1, x - d);
}

/// Where the significand `m` has `down` bits behind the binary point, the
/// nearest whole number is `m` plus a half, cut off at the point.
proof fn lemma_nearest_cut(m: nat, e: nat, down: nat)
    requires
        1 <= e,
        1 <= down,
        e + down == 1075,
    ensures
        nearest(m * pow2((e - 1) as nat)) == (m + pow2((down - 1) as nat)) / pow2(down),
        pow2(down) > 0,
{
    let s = m * pow2((e - 1) as nat);
    let unit = pow2(e) as int;
    let half = pow2((down - 1) as nat) as int;
    let whole = pow2(down) as int;
    lemma_pow2_unfold(e);
    lemma_pow2_adds(e, (down - 1) as nat);
    lemma_pow2_adds(e, down);
    lemma_pow2_pos(e);
    lemma_pow2_pos(down);
    assert(2 * s == unit * m) by (nonlinear_arith)
        requires
            s == m * pow2((e - 1) as nat),
            unit == 2 * pow2((e - 1) as nat),
    ;
    assert(pow2(1074) == unit * half);
    assert(pow2(1075) == unit * whole);
    assert(2 * s + pow2(1074) == unit * (m + half)) by (nonlinear_arith)
        requires
            2 * s == unit * m,
            pow2(1074) == unit * half,
    ;
    lemma_div_multiples_vanish_quotient(unit, m + half, whole);
}

/// Where the significand `m` is scaled up by `up` bits, it is a whole
/// number already.
proof fn lemma_nearest_whole(m: nat, e: nat, up: nat)
    requires
        e == 1075 + up,
    ensures
        nearest(m * pow2((e - 1) as nat)) == m * pow2(up),
{
    let s = m * pow2((e - 1) as nat);
    let d = pow2(1075) as int;
    let q = (m * pow2(up)) as int;
    lemma_pow2_unfold(e);
    lemma_pow2_unfold(1075);
    lemma_pow2_adds(1075, up);
    lemma_pow2_pos(1074);
    assert(2 * s == d * q) by (nonlinear_arith)
        requires
            s == m * pow2((e - 1) as nat),
            pow2(e) == 2 * pow2((e - 1) as nat),
            pow2(e) == d * pow2(up),
            q == m * pow2(up),
    ;
    lemma_div_multiples_vanish_fancy(q, pow2(1074) as int, d);
}

/// What the nearest whole number to the absolute value of a finite double
/// is, by the size of its exponent.
pub proof fn lemma_nearest_by_exponent(bits: u64)
    requires
        exponent_field(bits) < 0x7ff,
    ensures
        exponent_field(bits) <= 1021 ==> nearest(scaled(bits)) == 0,
        exponent_field(bits) == 1022 ==> nearest(scaled(bits)) == 1,
        1023 <= exponent_field(bits) <= 1074 ==> nearest(scaled(bits)) == (significand(bits)
            + pow2((1074 - exponent_field(bits)) as nat)) / pow2(
            (1075 - exponent_field(bits)) as nat,
        ),
        1075 <= exponent_field(bits) ==> nearest(scaled(bits)) == significand(bits) * pow2(
            (exponent_field(bits) - 1075) as nat,
        ),
        exponent_field(bits) <= 1022 <==> scaled(bits) < pow2(1074),
{
    let e = exponent_field(bits);
    let m = significand(bits);
    lemma2_to64();
    lemma2_to64_rest();
    assert(pow2(52) == HIDDEN_BIT);
    assert(pow2(53) == 2 * HIDDEN_BIT);
    if e == 0 {
        lemma_pow2_strictly_increases(52, 1073);
        lemma_pow2_strictly_increases(1073, 1074);
        assert(scaled(bits) == m) by (nonlinear_arith)
            requires
                scaled(bits) == m * pow2(0),
                pow2(0) == 1,
        ;
        lemma_nearest_zero(scaled(bits));
    } else {
        let low = pow2((e - 1) as nat);
        lemma_pow2_pos((e - 1) as nat);
        lemma_pow2_adds(52, (e - 1) as nat);
        lemma_pow2_adds(53, (e - 1) as nat);
        assert(pow2(52) * low <= m * low < pow2(53) * low) by (nonlinear_arith)
            requires
                pow2(52) <= m < pow2(53),
                low > 0,
        ;
        if e <= 1021 {
            if e < 1021 {
                lemma_pow2_strictly_increases((52 + e) as nat, 1073);
            }
            lemma_pow2_strictly_increases(1073, 1074);
            lemma_nearest_zero(scaled(bits));
        } else if e == 1022 {
            lemma_nearest_one(scaled(bits));
        } else {
            if e > 1023 {
                lemma_pow2_strictly_increases(1074, (51 + e) as nat);
            }
            if e <= 1074 {
                lemma_nearest_cut(m, e, (1075 - e) as nat);
            } else {
                lemma_nearest_whole(m, e, (e - 1075) as nat);
            }
        }
    }
}

/// Two to the power `k`, for a `k` that a `u64` has a bit for.
pub fn power_of_two(k: u64) -> (p: u64)
    requires
        k < 64,
    ensures
        p == pow2(k as nat),
{
    let mut p: u64 = 1;
    let mut i: u64 = 0;
    proof {
        lemma2_to64();
    }
    while i < k
        invariant
            i <= k < 64,
            p == pow2(i as nat),
        decreases k - i,
    {
        proof {
            lemma_pow2_unfold((i + 1) as nat);
            lemma2_to64_rest();
            if i + 1 < 63 {
                lemma_pow2_strictly_increases((i + 1) as nat, 63);
            }
        }
        p = p * 2;
        i = i + 1;
    }
    p
}

/// Tells whether the absolute value of the double is at least one.
pub fn at_least_one(bits: u64) -> (reached: bool)
    ensures
        reached == reaches_one(bits),
{
    let exponent = (bits / HIDDEN_BIT) % 0x800;
    let fraction = bits % HIDDEN_BIT;
    if exponent == 0x7ff {
        fraction == 0
    } else {
        proof {
            lemma_nearest_by_exponent(bits);
        }
        exponent >= 1023
    }
}

/// The nearest whole number to the absolute value of a finite double of at
/// least one and below two to the power 53.
fn nearest_whole(bits: u64) -> (whole: u64)
    requires
        1023 <= exponent_field(bits) <= 1074,
    ensures
        whole == nearest(scaled(bits)),
{
    let exponent = (bits / HIDDEN_BIT) % 0x800;
    let fraction = bits % HIDDEN_BIT;
    let down = 1075 - exponent;
    let half = power_of_two(down - 1);
    let unit = power_of_two(down);
    proof {
        lemma_nearest_by_exponent(bits);
        lemma2_to64_rest();
        lemma_pow2_pos(down as nat);
        if down < 52 {
            lemma_pow2_strictly_increases((down - 1) as nat, 51);
        }
    }
    (HIDDEN_BIT + fraction + half) / unit
}

/// The double rounded to the nearest whole number and brought into `i8`.
pub fn whole_power(bits: u64) -> (power: i8)
    ensures
        power == nearest_power(bits),
{
    let exponent = (bits / HIDDEN_BIT) % 0x800;
    let fraction = bits % HIDDEN_BIT;
    let minus = bits >= 0x8000_0000_0000_0000;
    if exponent == 0x7ff && fraction != 0 {
        return 0;
    }
    proof {
        if exponent < 0x7ff {
            lemma_nearest_by_exponent(bits);
        }
    }
    if exponent <= 1021 {
        0
    } else if exponent == 1022 {
        if minus {
            -1
        } else {
            1
        }
    } else if exponent <= 1074 {
        let whole = nearest_whole(bits);
        if minus {
            if whole >= 128 {
                -128
            } else {
                -(whole as i8)
            }
        } else {
            if whole >= 127 {
                127
            } else {
                whole as i8
            }
        }
    } else {
        proof {
            if exponent < 0x7ff {
                let up = (exponent - 1075) as nat;
                lemma_pow2_pos(up);
                assert(significand(bits) * pow2(up) >= HIDDEN_BIT) by (nonlinear_arith)
                    requires
                        significand(bits) >= HIDDEN_BIT,
                        pow2(up) >= 1,
                ;
            }
        }
        if minus {
            -128
        } else {
            127
        }
    }
}

/// The double rounded to the nearest whole number, reduced modulo two to
/// the power 32, and brought into `i8`.
pub fn whole_degree(bits: u64) -> (degree: i8)
    ensures
        degree == nearest_degree(bits),
{
    let exponent = (bits / HIDDEN_BIT) % 0x800;
    let fraction = bits % HIDDEN_BIT;
    let minus = bits >= 0x8000_0000_0000_0000;
    if exponent == 0x7ff || exponent <= 1021 {
        proof {
            if exponent < 0x7ff {
                lemma_nearest_by_exponent(bits);
            }
        }
        return 0;
    }
    proof {
        lemma_nearest_by_exponent(bits);
    }
    // The rounded absolute value, modulo two to the power 32.
    let rest: u64 = if exponent == 1022 {
        1
    } else if exponent <= 1074 {
        nearest_whole(bits) % WORD
    } else if exponent <= 1106 {
        let up = power_of_two(exponent - 1075);
        proof {
            lemma2_to64();
            lemma2_to64_rest();
            if exponent < 1106 {
                lemma_pow2_strictly_increases((exponent - 1075) as nat, 31);
            }
            let low = ((HIDDEN_BIT + fraction) as int) % (WORD as int);
            assert(low * up <= WORD * 0x8000_0000) by (nonlinear_arith)
                requires
                    0 <= low <= WORD,
                    0 <= up <= 0x8000_0000,
            ;
            lemma_mul_mod_noop_left((HIDDEN_BIT + fraction) as int, up as int, WORD as int);
        }
        (((HIDDEN_BIT + fraction) % WORD) * up) % WORD
    } else {
        proof {
            let high = (exponent - 1107) as nat;
            lemma2_to64();
            lemma_pow2_adds(high, 32);
            assert(significand(bits) * pow2((exponent - 1075) as nat) == (significand(bits)
                * pow2(high)) * WORD) by (nonlinear_arith)
                requires
                    pow2((exponent - 1075) as nat) == pow2(high) * WORD,
            ;
            lemma_mod_multiples_basic((significand(bits) * pow2(high)) as int, WORD as int);
        }
        0
    };
    assert(rest == nearest(scaled(bits)) % (WORD as nat));
    let least: u64 = if minus && rest != 0 {
        WORD - rest
    } else {
        rest
    };
    proof {
        let whole = nearest(scaled(bits)) as int;
        let word = WORD as int;
        if minus {
            lemma_fundamental_div_mod(whole, word);
            if rest != 0 {
                lemma_fundamental_div_mod_converse(-whole, word, -(whole / word) - 1, word - rest);
            } else {
                lemma_fundamental_div_mod_converse(-whole, word, -(whole / word), 0);
            }
        }
        assert(least == rounded(bits) % word);
    }
    if least > 127 {
        127
    } else {
        least as i8
    }
}

} // verus!
