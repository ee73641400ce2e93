//! Binary64 floating-point numbers, held as their bit patterns.
//!
//! A number is the `u64` that `to_bits` gives: the top bit is the sign, the next eleven bits
//! are the biased exponent and the low fifty-two bits are the fraction. What can be read off
//! the bits (comparison, sign, being a whole number) is computed on them here; arithmetic and
//! conversion from and to text are left to the machine and to `std`.

use num_complex::Complex64 as Pair;
use num_traits::FromBytes;
use vstd::arithmetic::power2::{lemma2_to64, lemma2_to64_rest, lemma_pow2_strictly_increases, lemma_pow2_unfold, pow2};
use vstd::prelude::*;

use crate::text::solid;

verus! {

/// The sign bit.
pub const SIGN_BIT: u64 = 0x8000_0000_0000_0000;

/// Positive infinity. Every magnitude above it is a NaN.
pub const INF_BITS: u64 = 0x7ff0_0000_0000_0000;

/// The number one.
pub const ONE_BITS: u64 = 0x3ff0_0000_0000_0000;

/// One above the largest fraction.
pub const FRACTION_RANGE: u64 = 0x10_0000_0000_0000;

/// The bits of `b` without the sign.
pub open spec fn magnitude(b: u64) -> int {
    if b >= SIGN_BIT {
        b - SIGN_BIT
    } else {
        b as int
    }
}

pub open spec fn is_nan(b: u64) -> bool {
    magnitude(b) > INF_BITS
}

pub open spec fn is_finite(b: u64) -> bool {
    magnitude(b) < INF_BITS
}

pub open spec fn is_zero(b: u64) -> bool {
    magnitude(b) == 0
}

/// `b` with its sign flipped.
pub open spec fn negated(b: u64) -> u64 {
    if b >= SIGN_BIT {
        (b - SIGN_BIT) as u64
    } else {
        (b + SIGN_BIT) as u64
    }
}

/// A number that orders the non-NaN patterns as the numbers they stand for are ordered.
pub open spec fn ordinal(b: u64) -> int {
    if b >= SIGN_BIT {
        -magnitude(b)
    } else {
        magnitude(b)
    }
}

/// `a < b` on the numbers; false when either is a NaN.
pub open spec fn float_lt(a: u64, b: u64) -> bool {
    !is_nan(a) && !is_nan(b) && ordinal(a) < ordinal(b)
}

/// `a <= b` on the numbers; false when either is a NaN.
pub open spec fn float_le(a: u64, b: u64) -> bool {
    !is_nan(a) && !is_nan(b) && ordinal(a) <= ordinal(b)
}

/// `a == b` on the numbers: a NaN equals nothing, and the two zeros are equal.
pub open spec fn float_eq(a: u64, b: u64) -> bool {
    !is_nan(a) && !is_nan(b) && ordinal(a) == ordinal(b)
}

/// Both patterns stand for the same number, or both are NaNs. Which NaN an operation gives is
/// not fixed, so this is as much as can be said of its result.
pub open spec fn same_float(a: u64, b: u64) -> bool {
    a == b || (is_nan(a) && is_nan(b))
}

pub open spec fn biased_exponent(b: u64) -> int {
    magnitude(b) / (FRACTION_RANGE as int)
}

/// The whole number whose product with a power of two is the number's magnitude.
pub open spec fn significand(b: u64) -> int {
    if biased_exponent(b) == 0 {
        magnitude(b)
    } else {
        magnitude(b) % (FRACTION_RANGE as int) + FRACTION_RANGE
    }
}

/// The finite magnitude of `b` is `significand(b)` divided by two to the power `scale(b)`.
pub open spec fn scale(b: u64) -> int {
    if biased_exponent(b) == 0 {
        1074
    } else {
        1075 - biased_exponent(b)
    }
}

/// `b` is a finite whole number.
pub open spec fn is_integral(b: u64) -> bool {
    is_finite(b) && (scale(b) <= 0 || significand(b) % (pow2(scale(b) as nat) as int) == 0)
}

/// The magnitude of a finite `b`, rounded down to a whole number.
pub open spec fn whole_magnitude(b: u64) -> int {
    if scale(b) <= 0 {
        significand(b) * pow2((-scale(b)) as nat)
    } else {
        significand(b) / (pow2(scale(b) as nat) as int)
    }
}

/// The number nearest to zero among `b` rounded towards zero, brought into the range of `i64`.
/// A NaN gives zero.
pub open spec fn truncated(b: u64) -> int {
    if is_nan(b) {
        0
    } else if b >= SIGN_BIT {
        if !is_finite(b) || whole_magnitude(b) > 0x8000_0000_0000_0000 {
            i64::MIN as int
        } else {
            -whole_magnitude(b)
        }
    } else {
        if !is_finite(b) || whole_magnitude(b) > 0x7fff_ffff_ffff_ffff {
            i64::MAX as int
        } else {
            whole_magnitude(b)
        }
    }
}

pub fn get_magnitude(b: u64) -> (r: u64)
    ensures
        r == magnitude(b),
{
    if b >= SIGN_BIT {
        b - SIGN_BIT
    } else {
        b
    }
}

pub fn check_nan(b: u64) -> (r: bool)
    ensures
        r == is_nan(b),
{
    get_magnitude(b) > INF_BITS
}

pub fn check_finite(b: u64) -> (r: bool)
    ensures
        r == is_finite(b),
{
    get_magnitude(b) < INF_BITS
}

pub fn check_zero(b: u64) -> (r: bool)
    ensures
        r == is_zero(b),
{
    get_magnitude(b) == 0
}

pub fn negate(b: u64) -> (r: u64)
    ensures
        r == negated(b),
{
    if b >= SIGN_BIT {
        b - SIGN_BIT
    } else {
        b + SIGN_BIT
    }
}

/// Whether the number that `a` stands for is below that of `b`, for patterns that are no NaNs.
fn ordinal_below(a: u64, b: u64) -> (r: bool)
    ensures
        r == (ordinal(a) < ordinal(b)),
{
    let (ma, mb) = (get_magnitude(a), get_magnitude(b));
    if a >= SIGN_BIT {
        if b >= SIGN_BIT {
            mb < ma
        } else {
            ma > 0 || mb > 0
        }
    } else {
        b < SIGN_BIT && ma < mb
    }
}

pub fn lt(a: u64, b: u64) -> (r: bool)
    ensures
        r == float_lt(a, b),
{
    !check_nan(a) && !check_nan(b) && ordinal_below(a, b)
}

pub fn le(a: u64, b: u64) -> (r: bool)
    ensures
        r == float_le(a, b),
{
    !check_nan(a) && !check_nan(b) && !ordinal_below(b, a)
}

pub fn eq(a: u64, b: u64) -> (r: bool)
    ensures
        r == float_eq(a, b),
{
    !check_nan(a) && !check_nan(b) && !ordinal_below(a, b) && !ordinal_below(b, a)
}

fn small_power(k: u64) -> (r: u64)
    requires
        k <= 53,
    ensures
        r == pow2(k as nat),
{
    let mut r: u64 = 1;
    let mut i: u64 = 0;
    proof {
        lemma2_to64();
        lemma2_to64_rest();
    }
    while i < k
        invariant
            i <= k <= 53,
            r == pow2(i as nat),
            pow2(53) == 0x20_0000_0000_0000,
        decreases k - i,
    {
        proof {
            lemma_pow2_unfold((i + 1) as nat);
            if i + 1 < 53 {
                lemma_pow2_strictly_increases((i + 1) as nat, 53);
            }
        }
        r = r * 2;
        i += 1;
    }
    r
}

fn get_exponent(b: u64) -> (r: u64)
    ensures
        r == biased_exponent(b),
        r < 2048,
{
    get_magnitude(b) / FRACTION_RANGE
}

fn get_significand(b: u64) -> (r: u64)
    ensures
        r == significand(b),
        r < 0x20_0000_0000_0000,
        biased_exponent(b) > 0 ==> r >= FRACTION_RANGE,
        biased_exponent(b) == 0 ==> r < FRACTION_RANGE,
{
    let m = get_magnitude(b);
    if m / FRACTION_RANGE == 0 {
        m
    } else {
        m % FRACTION_RANGE + FRACTION_RANGE
    }
}

/// Every significand is below two to the power of a scale above fifty-two.
proof fn lemma_large_scale(s: int, k: int)
    requires
        0 <= s < 0x20_0000_0000_0000,
        k >= 53,
    ensures
        s / (pow2(k as nat) as int) == 0,
        s % (pow2(k as nat) as int) == s,
{
    lemma2_to64_rest();
    if k > 53 {
        lemma_pow2_strictly_increases(53, k as nat);
    }
    let p = pow2(k as nat) as int;
    assert(0 <= s < p);
    vstd::arithmetic::div_mod::lemma_basic_div(s, p);
    vstd::arithmetic::div_mod::lemma_small_mod(s as nat, p as nat);
}

/// Whether `b` is a finite whole number (its fractional part is zero).
pub fn check_integral(b: u64) -> (r: bool)
    ensures
        r == is_integral(b),
{
    if !check_finite(b) {
        return false;
    }
    let e = get_exponent(b);
    let s = get_significand(b);
    if e >= 1075 {
        return true;
    }
    if e < 1023 {
        proof {
            lemma_large_scale(s as int, scale(b));
        }
        return s == 0;
    }
    let p = small_power(1075 - e);
    proof {
        vstd::arithmetic::power2::lemma_pow2_pos((1075 - e) as nat);
    }
    s % p == 0
}

fn get_whole_magnitude(b: u64) -> (r: Option<u64>)
    requires
        is_finite(b),
    ensures
        match r {
            Some(m) => m == whole_magnitude(b) && m <= 0x7fff_ffff_ffff_ffff,
            None => whole_magnitude(b) > 0x7fff_ffff_ffff_ffff,
        },
{
    let e = get_exponent(b);
    let s = get_significand(b);
    if e < 1023 {
        proof {
            lemma_large_scale(s as int, scale(b));
        }
        Some(0)
    } else if e < 1075 {
        let p = small_power(1075 - e);
        proof {
            vstd::arithmetic::power2::lemma_pow2_pos((1075 - e) as nat);
            vstd::arithmetic::div_mod::lemma_div_is_ordered_by_denominator(s as int, 1, p as int);
        }
        Some(s / p)
    } else if e <= 1085 {
        let p = small_power(e - 1075);
        proof {
            lemma2_to64();
            if e - 1075 < 10 {
                lemma_pow2_strictly_increases((e - 1075) as nat, 10);
            }
        }
        assert(s * p <= 0x1f_ffff_ffff_ffff * 1024) by (nonlinear_arith)
            requires
                s <= 0x1f_ffff_ffff_ffff,
                p <= 1024,
        ;
        Some(s * p)
    } else {
        proof {
            lemma2_to64();
            if e - 1075 > 11 {
                lemma_pow2_strictly_increases(11, (e - 1075) as nat);
            }
            let p = pow2((e - 1075) as nat) as int;
            assert(s * p >= 0x10_0000_0000_0000 * 2048) by (nonlinear_arith)
                requires
                    s >= 0x10_0000_0000_0000,
                    p >= 2048,
            ;
        }
        None
    }
}

/// The conversion of a number to `i64`: rounded towards zero, saturating, zero for a NaN.
pub fn to_i64(b: u64) -> (r: i64)
    ensures
        r == truncated(b),
{
    if check_nan(b) {
        return 0;
    }
    let m: Option<u64> = if check_finite(b) {
        get_whole_magnitude(b)
    } else {
        None
    };
    match m {
        Some(w) => if b >= SIGN_BIT {
            -(w as i64)
        } else {
            w as i64
        },
        None => if b >= SIGN_BIT {
            i64::MIN
        } else {
            i64::MAX
        },
    }
}

/// What binary64 addition gives.
pub uninterp spec fn float_sum(a: u64, b: u64) -> u64;

/// The `+` of binary64 numbers. Its result is named; which NaN a NaN result is stays open.
#[verifier::external_body]
fn float_add(a: u64, b: u64) -> (r: u64)
    ensures
        same_float(r, float_sum(a, b)),
{
    let p = Pair::new(FromBytes::from_le_bytes(&a.to_le_bytes()), FromBytes::from_le_bytes(&b.to_le_bytes()));
    (p.re + p.im).to_bits()
}

/// What binary64 subtraction gives.
pub uninterp spec fn float_difference(a: u64, b: u64) -> u64;

/// The `-` of binary64 numbers. Its result is named; which NaN a NaN result is stays open.
#[verifier::external_body]
fn float_sub(a: u64, b: u64) -> (r: u64)
    ensures
        same_float(r, float_difference(a, b)),
{
    let p = Pair::new(FromBytes::from_le_bytes(&a.to_le_bytes()), FromBytes::from_le_bytes(&b.to_le_bytes()));
    (p.re - p.im).to_bits()
}

/// What binary64 multiplication gives.
pub uninterp spec fn float_product(a: u64, b: u64) -> u64;

/// The `*` of binary64 numbers. Its result is named; which NaN a NaN result is stays open.
#[verifier::external_body]
fn float_mul(a: u64, b: u64) -> (r: u64)
    ensures
        same_float(r, float_product(a, b)),
{
    let p = Pair::new(FromBytes::from_le_bytes(&a.to_le_bytes()), FromBytes::from_le_bytes(&b.to_le_bytes()));
    (p.re * p.im).to_bits()
}

/// What binary64 division gives.
pub uninterp spec fn float_quotient(a: u64, b: u64) -> u64;

/// The `/` of binary64 numbers. Its result is named; which NaN a NaN result is stays open.
#[verifier::external_body]
fn float_div(a: u64, b: u64) -> (r: u64)
    ensures
        same_float(r, float_quotient(a, b)),
{
    let p = Pair::new(FromBytes::from_le_bytes(&a.to_le_bytes()), FromBytes::from_le_bytes(&b.to_le_bytes()));
    (p.re / p.im).to_bits()
}

/// The NaN that stands for all of them.
pub const NAN_BITS: u64 = 0x7ff8_0000_0000_0000;

/// `b`, or the NaN that stands for all of them if it is one.
pub open spec fn canonical(b: u64) -> u64 {
    if is_nan(b) {
        NAN_BITS
    } else {
        b
    }
}

pub(crate) fn canonize(b: u64) -> (r: u64)
    ensures
        r == canonical(b),
{
    if check_nan(b) {
        NAN_BITS
    } else {
        b
    }
}

pub open spec fn sum(a: u64, b: u64) -> u64 {
    canonical(float_sum(a, b))
}

pub open spec fn minus(a: u64, b: u64) -> u64 {
    canonical(float_difference(a, b))
}

pub open spec fn product(a: u64, b: u64) -> u64 {
    canonical(float_product(a, b))
}

pub open spec fn quotient(a: u64, b: u64) -> u64 {
    canonical(float_quotient(a, b))
}

/// `a + b`, with one NaN for all.
pub fn get_sum(a: u64, b: u64) -> (r: u64)
    ensures
        r == sum(a, b),
{
    canonize(float_add(a, b))
}

/// `a - b`, with one NaN for all.
pub fn get_minus(a: u64, b: u64) -> (r: u64)
    ensures
        r == minus(a, b),
{
    canonize(float_sub(a, b))
}

/// `a * b`, with one NaN for all.
pub fn get_product(a: u64, b: u64) -> (r: u64)
    ensures
        r == product(a, b),
{
    canonize(float_mul(a, b))
}

/// `a / b`, with one NaN for all.
pub fn get_quotient(a: u64, b: u64) -> (r: u64)
    ensures
        r == quotient(a, b),
{
    canonize(float_div(a, b))
}

/// The binary64 number nearest to a whole number.
pub uninterp spec fn float_of(n: u64) -> u64;

/// The conversion of a `u64` to binary64: the nearest number, which is finite and not
/// negative, and zero only for zero.
#[verifier::external_body]
pub(crate) fn float_from(n: u64) -> (r: u64)
    ensures
        r == float_of(n),
        r < INF_BITS,
        r == 0 <==> n == 0,
{
    Pair::new(n as _, 0 as _).re.to_bits()
}

/// The text of a number with a fixed number of decimals.
pub uninterp spec fn fixed_text(b: u64, places: usize) -> Seq<char>;

/// `format!` of a binary64 number with the precision `places`, which must not be above the largest
/// precision that `format!` takes. The text is named; it is not empty and holds no blank.
#[verifier::external_body]
pub(crate) fn format_fixed(b: u64, places: usize) -> (r: String)
    requires
        places <= 0xffff,
    ensures
        r@ == fixed_text(b, places),
        solid(r@),
{
    let p = Pair::new(FromBytes::from_le_bytes(&b.to_le_bytes()), 0 as _);
    format!("{:.*}", places, p.re)
}

/// The shortest decimal text that reads back as the same number.
pub uninterp spec fn plain_text(b: u64) -> Seq<char>;

/// `format!` of a binary64 number without a precision. The text is named; it is not empty and
/// holds no blank.
#[verifier::external_body]
pub(crate) fn format_plain(b: u64) -> (r: String)
    ensures
        r@ == plain_text(b),
        solid(r@),
{
    let p = Pair::new(FromBytes::from_le_bytes(&b.to_le_bytes()), 0 as _);
    format!("{}", p.re)
}

} // verus!
