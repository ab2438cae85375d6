//! The score of two digests: their similarity as a percentage.
//!
//! `malwaredb_lzjd` gives the similarity of two digests as a double-precision
//! floating-point number. The score is that number times 100, rounded to the
//! nearest integer, halves away from zero, as floating-point arithmetic
//! computes it: the product is itself rounded to a double before it is rounded
//! to an integer. This module computes the score from the bits of the double,
//! in integers.

use crate::digest::similarity_bits;
use crate::digest::similarity_of;
use crate::digest::DigestRecord;
use crate::digest::RecordView;
use vstd::arithmetic::div_mod::lemma_div_denominator;
use vstd::arithmetic::div_mod::lemma_div_multiples_vanish;
use vstd::arithmetic::div_mod::lemma_fundamental_div_mod;
use vstd::arithmetic::div_mod::lemma_fundamental_div_mod_converse;
use vstd::arithmetic::power2::lemma2_to64;
use vstd::arithmetic::power2::lemma2_to64_rest;
use vstd::arithmetic::power2::lemma_pow2_adds;
use vstd::arithmetic::power2::lemma_pow2_pos;
use vstd::arithmetic::power2::lemma_pow2_strictly_increases;
use vstd::arithmetic::power2::lemma_pow2_unfold;
use vstd::arithmetic::power2::pow2;
use vstd::prelude::*;

verus! {

/// 2^52: the number of values of a double's fraction field.
pub const FRACTIONS: u64 = 0x10_0000_0000_0000;

/// 2^11: the number of values of a double's exponent field.
pub const EXPONENTS: u64 = 0x800;

/// 2^63: the bit of a double's sign.
pub const SIGN: u64 = 0x8000_0000_0000_0000;

/// The exponent field of the infinities and of what is no number.
pub const SPECIAL: u64 = 0x7ff;

/// 2^53: the mantissa of a double is below this.
pub const MANTISSA_LIMIT: u64 = 0x20_0000_0000_0000;

/// A finite double is a whole number of times 2^-1074.
pub const SCALE: u64 = 1074;

/// The bits of the double 1.
pub const ONE: u64 = 0x3ff0_0000_0000_0000;

/// The exponent field of a double: its bits 52 to 62.
pub open spec fn exponent_field(bits: u64) -> nat {
    ((bits / FRACTIONS) % EXPONENTS) as nat
}

/// The fraction field of a double: its bits 0 to 51.
pub open spec fn fraction_field(bits: u64) -> nat {
    (bits % FRACTIONS) as nat
}

/// Whether the sign bit of a double is set.
pub open spec fn is_negative(bits: u64) -> bool {
    bits >= SIGN
}

/// Whether a double is no number.
pub open spec fn is_nan(bits: u64) -> bool {
    exponent_field(bits) == SPECIAL && fraction_field(bits) != 0
}

/// Whether a double is an infinity.
pub open spec fn is_infinite(bits: u64) -> bool {
    exponent_field(bits) == SPECIAL && fraction_field(bits) == 0
}

/// The mantissa of a finite double. Without its sign, the double is
/// `mantissa * 2^power / 2^1074`.
pub open spec fn mantissa(bits: u64) -> nat {
    if exponent_field(bits) == 0 {
        fraction_field(bits)
    } else {
        (FRACTIONS + fraction_field(bits)) as nat
    }
}

/// The power of two by which the mantissa of a finite double is multiplied.
pub open spec fn power(bits: u64) -> nat {
    if exponent_field(bits) == 0 {
        0
    } else {
        (exponent_field(bits) - 1) as nat
    }
}

/// Whether a double lies between 0 and 1, both included. Doubles that are
/// not negative are ordered as their bits are.
pub open spec fn is_fraction(bits: u64) -> bool {
    bits <= ONE
}

/// The power of two in whose multiples a number is written as a double: the
/// least one that leaves of the number, divided by it, less than 2^53.
pub open spec fn rounding_unit(n: nat) -> nat
    decreases n,
{
    if n < MANTISSA_LIMIT {
        1
    } else {
        2 * rounding_unit(n / 2)
    }
}

/// The multiple of `unit` that is nearest to `n`; of two that are equally
/// near, the even one.
pub open spec fn rounded_to_multiple(n: nat, unit: nat) -> nat {
    let below = n / unit;
    let rest = n % unit;
    if 2 * rest > unit || (2 * rest == unit && below % 2 == 1) {
        (below + 1) * unit
    } else {
        below * unit
    }
}

/// A number rounded to a double: to 53 significant bits, halves to even.
pub open spec fn rounded_to_double(n: nat) -> nat {
    rounded_to_multiple(n, rounding_unit(n))
}

/// The integer nearest to `mantissa * 2^power / 2^1074`; of two that are
/// equally near, the greater.
pub open spec fn rounded_to_integer(mantissa: nat, power: nat) -> nat {
    (2 * mantissa * pow2(power) + pow2(1074)) / pow2(1075)
}

/// The score for a similarity, given as the bits of a double: the
/// similarity times 100, rounded to a double and then to the nearest
/// integer. What lies below 0 or is no number scores 0, and what lies above
/// `u32::MAX` scores `u32::MAX`.
pub open spec fn percent_of(bits: u64) -> u32 {
    if is_negative(bits) || is_nan(bits) {
        0
    } else if is_infinite(bits) {
        u32::MAX
    } else {
        let nearest = rounded_to_integer(rounded_to_double(100 * mantissa(bits)), power(bits));
        if nearest > u32::MAX {
            u32::MAX
        } else {
            nearest as u32
        }
    }
}

/// The power of two in whose multiples `n` is written as a double.
fn unit_of(n: u64) -> (unit: u64)
    ensures
        unit == rounding_unit(n as nat),
        n < MANTISSA_LIMIT ==> unit == 1,
        n >= MANTISSA_LIMIT ==> unit * FRACTIONS <= n,
        unit >= 1,
    decreases n,
{
    if n < MANTISSA_LIMIT {
        1
    } else {
        let half = unit_of(n / 2);
        2 * half
    }
}

/// Rounds a number to 53 significant bits, halves to even.
fn round_to_double(n: u64) -> (rounded: u64)
    requires
        n <= 100 * MANTISSA_LIMIT,
    ensures
        rounded == rounded_to_double(n as nat),
        rounded <= 2 * n,
{
    let unit = unit_of(n);
    let below = n / unit;
    let rest = n % unit;
    proof {
        lemma_fundamental_div_mod(n as int, unit as int);
        assert(below * unit == unit * below) by (nonlinear_arith);
        assert((below + 1) * unit == below * unit + unit) by (nonlinear_arith);
    }
    if 2 * rest > unit || (2 * rest == unit && below % 2 == 1) {
        (below + 1) * unit
    } else {
        below * unit
    }
}

/// 2 to the power of `exponent`.
fn power_of_two(exponent: u64) -> (value: u64)
    requires
        exponent < 64,
    ensures
        value == pow2(exponent as nat),
{
    let mut value: u64 = 1;
    let mut done: u64 = 0;
    proof {
        lemma2_to64();
    }
    while done < exponent
        invariant
            done <= exponent < 64,
            value == pow2(done as nat),
        decreases exponent - done,
    {
        proof {
            lemma_pow2_unfold((done + 1) as nat);
            lemma2_to64_rest();
            if done + 1 < 63 {
                lemma_pow2_strictly_increases((done + 1) as nat, 63);
            }
        }
        value = 2 * value;
        done = done + 1;
    }
    value
}

/// The integer nearest to `mantissa * 2^power / 2^1074`, halves up, or
/// `u32::MAX` if that is less.
fn round_to_integer(mantissa: u64, power: u64) -> (nearest: u32)
    requires
        mantissa <= 200 * MANTISSA_LIMIT,
    ensures
        rounded_to_integer(mantissa as nat, power as nat) > u32::MAX ==> nearest == u32::MAX,
        rounded_to_integer(mantissa as nat, power as nat) <= u32::MAX ==> nearest
            == rounded_to_integer(mantissa as nat, power as nat),
{
    let ghost exact = rounded_to_integer(mantissa as nat, power as nat);
    proof {
        lemma2_to64();
        lemma2_to64_rest();
        lemma_pow2_pos(power as nat);
        lemma_pow2_pos(1074);
        lemma_pow2_pos(1075);
        lemma_pow2_unfold(1075);
    }
    if power >= SCALE {
        let shift = power - SCALE;
        proof {
            // 2 * mantissa * 2^power == (mantissa * 2^shift) * 2^1075
            lemma_pow2_adds(shift as nat, 1074);
            lemma_pow2_pos(shift as nat);
            let whole = mantissa * pow2(shift as nat);
            assert(2 * mantissa * pow2(power as nat) == whole * pow2(1075)) by (nonlinear_arith)
                requires
                    pow2(power as nat) == pow2(shift as nat) * pow2(1074),
                    pow2(1075) == 2 * pow2(1074),
                    whole == mantissa * pow2(shift as nat),
            ;
            lemma_fundamental_div_mod_converse(
                2 * mantissa * pow2(power as nat) + pow2(1074),
                pow2(1075) as int,
                whole as int,
                pow2(1074) as int,
            );
            assert(exact == whole);
        }
        if mantissa == 0 {
            proof {
                assert(mantissa * pow2(shift as nat) == 0) by (nonlinear_arith)
                    requires
                        mantissa == 0,
                ;
            }
            0
        } else if shift >= 32 {
            proof {
                if shift > 32 {
                    lemma_pow2_strictly_increases(32, shift as nat);
                }
                assert(mantissa * pow2(shift as nat) >= pow2(shift as nat)) by (nonlinear_arith)
                    requires
                        mantissa >= 1,
                ;
            }
            u32::MAX
        } else {
            let factor = power_of_two(shift);
            proof {
                lemma_pow2_strictly_increases(shift as nat, 32);
                assert(mantissa * factor <= (200 * MANTISSA_LIMIT) * 0x1_0000_0000) by (nonlinear_arith)
                    requires
                        mantissa <= 200 * MANTISSA_LIMIT,
                        factor <= 0x1_0000_0000,
                ;
            }
            let whole: u128 = (mantissa as u128) * (factor as u128);
            if whole > u32::MAX as u128 {
                u32::MAX
            } else {
                whole as u32
            }
        }
    } else {
        let below = SCALE - power;
        proof {
            // 2^1074 == 2^power * 2^below and 2^1075 == 2^power * 2^(below + 1)
            lemma_pow2_adds(power as nat, below as nat);
            lemma_pow2_adds(power as nat, (below + 1) as nat);
            lemma_pow2_pos(below as nat);
            lemma_pow2_pos((below + 1) as nat);
            lemma_pow2_unfold((below + 1) as nat);
            let common = pow2(power as nat);
            let numerator = 2 * mantissa + pow2(below as nat);
            assert(2 * mantissa * common + pow2(1074) == common * numerator) by (nonlinear_arith)
                requires
                    pow2(1074) == common * pow2(below as nat),
                    numerator == 2 * mantissa + pow2(below as nat),
            ;
            lemma_div_denominator(
                (common * numerator) as int,
                common as int,
                pow2((below + 1) as nat) as int,
            );
            lemma_div_multiples_vanish(numerator as int, common as int);
            assert(exact == numerator / (pow2((below + 1) as nat) as int));
        }
        if below >= 63 {
            proof {
                if below > 63 {
                    lemma_pow2_strictly_increases(63, below as nat);
                }
                let numerator = 2 * mantissa + pow2(below as nat);
                assert(numerator < pow2((below + 1) as nat));
                vstd::arithmetic::div_mod::lemma_basic_div(
                    numerator as int,
                    pow2((below + 1) as nat) as int,
                );
            }
            0
        } else {
            let half = power_of_two(below);
            proof {
                lemma_pow2_strictly_increases(below as nat, 63);
            }
            let numerator: u128 = 2 * (mantissa as u128) + (half as u128);
            let whole: u128 = numerator / (2 * (half as u128));
            proof {
                assert(whole <= numerator);
            }
            if whole > u32::MAX as u128 {
                u32::MAX
            } else {
                whole as u32
            }
        }
    }
}

/// The score of two records: the similarity of their digests as a
/// percentage. Two digests without a hash have no similarity and score 0;
/// two digests with the same hashes score 100.
pub open spec fn score_of(a: RecordView, b: RecordView) -> u32 {
    if a.entries.len() == 0 && b.entries.len() == 0 {
        0
    } else if a.entries == b.entries {
        100
    } else {
        percent_of(similarity_of(a.entries, b.entries))
    }
}

/// Scores two records: the similarity of their digests, which
/// `malwaredb_lzjd` computes, as a percentage.
pub fn score(a: &DigestRecord, b: &DigestRecord) -> (score: u32)
    ensures
        score == score_of(a@, b@),
        score <= 100,
{
    let bits = similarity_bits(a.digest(), b.digest());
    proof {
        lemma_percent_of_zero_and_one();
        if !is_nan(bits) {
            lemma_percent_of_fraction(bits);
        }
    }
    percent_of_bits(bits)
}

/// The score for a similarity, given as the bits of a double.
pub fn percent_of_bits(bits: u64) -> (score: u32)
    ensures
        score == percent_of(bits),
{
    if bits >= SIGN {
        return 0;
    }
    let field = (bits / FRACTIONS) % EXPONENTS;
    let fraction = bits % FRACTIONS;
    if field == SPECIAL {
        return if fraction == 0 {
            u32::MAX
        } else {
            0
        };
    }
    let mantissa = if field == 0 {
        fraction
    } else {
        FRACTIONS + fraction
    };
    let power = if field == 0 {
        0
    } else {
        field - 1
    };
    let product = round_to_double(100 * mantissa);
    round_to_integer(product, power)
}

/// The similarity 0 scores 0 and the similarity 1 scores 100.
pub proof fn lemma_percent_of_zero_and_one()
    ensures
        percent_of(0) == 0,
        percent_of(ONE) == 100,
{
    lemma2_to64();
    lemma2_to64_rest();
    lemma_pow2_pos(1074);
    lemma_pow2_unfold(1075);
    assert(0u64 / FRACTIONS == 0 && 0u64 % FRACTIONS == 0);
    assert(ONE / FRACTIONS == 1023 && ONE % FRACTIONS == 0);
    // Zero: the nearest integer to 0 is 0.
    assert(rounding_unit(0) == 1);
    assert(rounded_to_double(0) == 0);
    assert(2 * 0 * pow2(0) == 0);
    vstd::arithmetic::div_mod::lemma_basic_div(pow2(1074) as int, pow2(1075) as int);
    assert(rounded_to_integer(0, 0) == 0);
    // One: 100 * 2^52 is a double, and the nearest integer to 100 is 100.
    let product: nat = 100 * FRACTIONS as nat;
    lemma_rounding_unit_bounds(product);
    assert(rounding_unit(product) == 64) by {
        reveal_with_fuel(rounding_unit, 8);
    }
    assert(product == 0x19_0000_0000_0000 * 64);
    assert(product / 64 == 0x19_0000_0000_0000 && product % 64 == 0);
    assert(rounded_to_double(product) == product);
    lemma_pow2_adds(1022, 52);
    assert(2 * product * pow2(1022) + pow2(1074) == 100 * pow2(1075) + pow2(1074))
        by (nonlinear_arith)
        requires
            product == 100 * 0x10_0000_0000_0000,
            pow2(1074) == pow2(1022) * 0x10_0000_0000_0000,
            pow2(1075) == 2 * pow2(1074),
    ;
    lemma_fundamental_div_mod_converse(
        (2 * product * pow2(1022) + pow2(1074)) as int,
        pow2(1075) as int,
        100,
        pow2(1074) as int,
    );
    assert(rounded_to_integer(product, 1022) == 100);
}

/// A similarity between 0 and 1 scores between 0 and 100.
pub proof fn lemma_percent_of_fraction(bits: u64)
    requires
        is_fraction(bits),
    ensures
        percent_of(bits) <= 100,
{
    lemma2_to64();
    lemma2_to64_rest();
    if bits == ONE {
        lemma_percent_of_zero_and_one();
    } else {
        let field = (bits / FRACTIONS) % EXPONENTS;
        assert(field < 1023);
        let m = mantissa(bits);
        let p = power(bits);
        assert(m < MANTISSA_LIMIT);
        assert(p <= 1021);
        let product: nat = 100 * m;
        let rounded = rounded_to_double(product);
        lemma_rounded_to_double_is_near(product);
        // Divide numerator and denominator by 2^p.
        let k: nat = (1074 - p) as nat;
        lemma_pow2_pos(p);
        lemma_pow2_pos(k);
        lemma_pow2_pos(k + 1);
        lemma_pow2_adds(p, k);
        lemma_pow2_adds(p, k + 1);
        lemma_pow2_unfold(k + 1);
        if k > 53 {
            lemma_pow2_strictly_increases(53, k);
        }
        let common = pow2(p);
        let numerator = 2 * rounded + pow2(k);
        assert(2 * rounded * common + pow2(1074) == common * numerator) by (nonlinear_arith)
            requires
                pow2(1074) == common * pow2(k),
                numerator == 2 * rounded + pow2(k),
        ;
        lemma_div_denominator((common * numerator) as int, common as int, pow2(k + 1) as int);
        lemma_div_multiples_vanish(numerator as int, common as int);
        assert(rounded_to_integer(rounded, p) == numerator / pow2(k + 1));
        // numerator < 101 * 2^(k + 1), since the product lies below 100 * 2^53.
        assert(numerator < 101 * pow2(k + 1));
        vstd::arithmetic::div_mod::lemma_div_is_ordered(
            numerator as int,
            101 * pow2(k + 1) - 1,
            pow2(k + 1) as int,
        );
        lemma_fundamental_div_mod_converse(
            101 * pow2(k + 1) - 1,
            pow2(k + 1) as int,
            100,
            pow2(k + 1) - 1,
        );
    }
}

/// The unit of a number of at least 2^53 lies between the number's 2^53rd
/// and its 2^52nd part.
proof fn lemma_rounding_unit_bounds(n: nat)
    ensures
        rounding_unit(n) >= 1,
        n < MANTISSA_LIMIT ==> rounding_unit(n) == 1,
        n >= MANTISSA_LIMIT ==> rounding_unit(n) * FRACTIONS <= n,
    decreases n,
{
    if n >= MANTISSA_LIMIT {
        lemma_rounding_unit_bounds(n / 2);
    }
}

/// Rounding to a double moves a number by less than its unit.
proof fn lemma_rounded_to_double_is_near(n: nat)
    ensures
        rounded_to_double(n) <= n + rounding_unit(n),
        rounding_unit(n) * FRACTIONS <= n || rounding_unit(n) == 1,
{
    let unit = rounding_unit(n);
    lemma_rounding_unit_bounds(n);
    lemma_fundamental_div_mod(n as int, unit as int);
    let below = n / unit;
    assert(below * unit == unit * below) by (nonlinear_arith);
    assert((below + 1) * unit == below * unit + unit) by (nonlinear_arith);
}

} // verus!
