//! The numbers that bit patterns stand for, and that comparing, rounding and negating patterns is
//! comparing, rounding and negating those numbers.

use vstd::arithmetic::div_mod::{
    lemma_fundamental_div_mod, lemma_fundamental_div_mod_converse_div,
    lemma_fundamental_div_mod_converse_mod,
};
use vstd::arithmetic::power2::{
    lemma2_to64, lemma2_to64_rest, lemma_pow2_adds, lemma_pow2_pos, lemma_pow2_strictly_increases,
    lemma_pow2_unfold, pow2,
};
use vstd::prelude::*;

use crate::catalog::{const_text, NEGLIGIBLE};
use crate::complex::Complex64;
use crate::config::{
    MACHINE_TOLERANCE, PLOT_SMOOTHING_SCALE, PLOT_SMOOTHING_WINDOW, PLOT_XMAX, PLOT_XMIN,
};
use crate::curve::{HALF_BITS, INVISIBLE, MARGIN_SHARE, MINUS_ONE_BITS, NARROW};
use crate::fingerprint::points;
use crate::float::{
    float_eq, float_le, float_lt, float_of, is_finite, is_integral, is_zero, magnitude, negated,
    product, scale, significand, truncated, whole_magnitude, ONE_BITS,
};
use crate::minimize::{takes_over, SATURATION_SHARE};
use crate::saturate::CONST_FOLD_TOLERANCE;
use crate::stochastic::default_config;
use crate::text::{all_digits, decimal, digits_value, lemma_decimal_value};

verus! {

/// How many times the smallest positive number goes into the number whose bits without the sign are
/// `m`: the fraction, with a leading one where the exponent is not zero, times a power of two.
pub open spec fn steps_of(m: int) -> int {
    let exponent = m / 0x10_0000_0000_0000;
    let fraction = m % 0x10_0000_0000_0000;
    if exponent == 0 {
        fraction
    } else {
        (fraction + 0x10_0000_0000_0000) * pow2((exponent - 1) as nat)
    }
}

/// How many times the smallest positive number, which is two to the power -1074, goes into the number
/// that `b` stands for.
pub open spec fn steps(b: u64) -> int {
    if b < 0x8000_0000_0000_0000 {
        steps_of(b as int)
    } else {
        -steps_of(b - 0x8000_0000_0000_0000)
    }
}

/// How many times the smallest positive number goes into one.
pub open spec fn one_in_steps() -> int {
    pow2(1074) as int
}

/// The larger bits stand for the larger number.
proof fn lemma_steps_grow(a: int, b: int)
    requires
        0 <= a < b < 0x8000_0000_0000_0000,
    ensures
        0 <= steps_of(a) < steps_of(b),
{
    let range = 0x10_0000_0000_0000int;
    let (e, f) = (a / range, a % range);
    let (x, y) = (b / range, b % range);
    assert(0 <= e <= x);
    lemma2_to64();
    if e == x {
        if e > 0 {
            let p = pow2((e - 1) as nat) as int;
            lemma_pow2_pos((e - 1) as nat);
            assert(0 <= (f + range) * p < (y + range) * p) by (nonlinear_arith)
                requires
                    0 <= f < y,
                    range > 0,
                    p > 0,
            ;
        }
    } else {
        let q = pow2((x - 1) as nat) as int;
        lemma_pow2_pos((x - 1) as nat);
        assert(steps_of(b) >= range * q) by (nonlinear_arith)
            requires
                steps_of(b) == (y + range) * q,
                y >= 0,
                q > 0,
        ;
        if e == 0 {
            assert(range * q >= range) by (nonlinear_arith)
                requires
                    q >= 1,
                    range > 0,
            ;
        } else {
            let p = pow2((e - 1) as nat) as int;
            lemma_pow2_pos((e - 1) as nat);
            lemma_pow2_unfold(e as nat);
            if e < x - 1 {
                lemma_pow2_strictly_increases(e as nat, (x - 1) as nat);
            }
            assert(2 * p <= q);
            assert(0 <= (f + range) * p < range * q) by (nonlinear_arith)
                requires
                    0 <= f < range,
                    2 * p <= q,
                    p > 0,
            ;
        }
    }
}

proof fn lemma_steps_of_zero()
    ensures
        steps_of(0) == 0,
{
}

/// Finite patterns compare as the numbers they stand for.
pub proof fn law_order(a: u64, b: u64)
    requires
        is_finite(a),
        is_finite(b),
    ensures
        float_lt(a, b) <==> steps(a) < steps(b),
        float_le(a, b) <==> steps(a) <= steps(b),
        float_eq(a, b) <==> steps(a) == steps(b),
        is_zero(a) <==> steps(a) == 0,
{
    let (x, y) = (magnitude(a), magnitude(b));
    lemma_steps_of_zero();
    if x > 0 {
        lemma_steps_grow(0, x);
    }
    if y > 0 {
        lemma_steps_grow(0, y);
    }
    if x < y {
        lemma_steps_grow(x, y);
    } else if y < x {
        lemma_steps_grow(y, x);
    }
}

/// Flipping the sign negates the number, and doing it twice changes nothing.
pub proof fn law_negated(b: u64)
    ensures
        steps(negated(b)) == -steps(b),
        negated(negated(b)) == b,
        is_finite(negated(b)) == is_finite(b),
{
}

/// The whole part of a magnitude, and whether there is anything beside it.
proof fn lemma_whole(b: u64)
    requires
        is_finite(b),
    ensures
        steps_of(magnitude(b)) / one_in_steps() == whole_magnitude(b),
        steps_of(magnitude(b)) % one_in_steps() == 0 <==> is_integral(b),
        one_in_steps() > 0,
{
    let n = steps_of(magnitude(b));
    let one = one_in_steps();
    let (s, k) = (significand(b), scale(b));
    lemma2_to64();
    lemma_pow2_pos(1074);
    let a = pow2((1074 - k) as nat) as int;
    lemma_pow2_pos((1074 - k) as nat);
    assert(n == s * a) by {
        if magnitude(b) / 0x10_0000_0000_0000 == 0 {
            assert(s * a == s) by (nonlinear_arith)
                requires
                    a == 1,
            ;
        }
    }
    if k <= 0 {
        let q = pow2((-k) as nat) as int;
        lemma_pow2_adds((-k) as nat, 1074);
        assert(n == (s * q) * one + 0) by (nonlinear_arith)
            requires
                n == s * a,
                a == q * one,
        ;
        lemma_fundamental_div_mod_converse_div(n, one, s * q, 0);
        lemma_fundamental_div_mod_converse_mod(n, one, s * q, 0);
    } else {
        let d = pow2(k as nat) as int;
        lemma_pow2_pos(k as nat);
        lemma_pow2_adds(k as nat, (1074 - k) as nat);
        lemma_fundamental_div_mod(s, d);
        let (q, r) = (s / d, s % d);
        assert(0 <= r < d) by {
            vstd::arithmetic::div_mod::lemma_mod_bound(s, d);
        }
        assert(n == q * one + r * a && 0 <= r * a < one && (r * a == 0 <==> r == 0))
            by (nonlinear_arith)
            requires
                n == s * a,
                s == d * q + r,
                one == d * a,
                0 <= r < d,
                a > 0,
        ;
        lemma_fundamental_div_mod_converse_div(n, one, q, r * a);
        lemma_fundamental_div_mod_converse_mod(n, one, q, r * a);
    }
}

/// A finite pattern counts as a whole number exactly when it stands for one.
pub proof fn law_integral(b: u64)
    requires
        is_finite(b),
    ensures
        is_integral(b) <==> exists|n: int| #[trigger] (n * one_in_steps()) == steps(b),
{
    let one = one_in_steps();
    let m = steps_of(magnitude(b));
    lemma_whole(b);
    lemma_fundamental_div_mod(m, one);
    if is_integral(b) {
        let q = m / one;
        assert(q * one == m && (-q) * one == -m) by (nonlinear_arith)
            requires
                m == one * q,
        ;
        if b < 0x8000_0000_0000_0000 {
            assert(q * one == steps(b));
        } else {
            assert((-q) * one == steps(b));
        }
    }
    if exists|n: int| #[trigger] (n * one) == steps(b) {
        let n = choose|n: int| #[trigger] (n * one) == steps(b);
        let q = if b < 0x8000_0000_0000_0000 {
            n
        } else {
            -n
        };
        assert((-n) * one == -(n * one)) by (nonlinear_arith);
        assert(m == q * one + 0);
        lemma_fundamental_div_mod_converse_mod(m, one, q, 0);
    }
}

/// Truncation gives the whole number between zero and the number that is nearest to it, as far as it
/// fits into an `i64`, and the nearest that fits otherwise. A whole number in the range is kept.
pub proof fn law_truncated(b: u64)
    requires
        is_finite(b),
    ensures
        ({
            let (n, one, v) = (truncated(b), one_in_steps(), steps(b));
            &&& i64::MIN <= n <= i64::MAX
            &&& v >= 0 ==> n * one <= v && (v < (n + 1) * one || n == i64::MAX)
            &&& v <= 0 ==> v <= n * one && ((n - 1) * one < v || n == i64::MIN)
            &&& v >= 0 ==> n >= 0
            &&& v <= 0 ==> n <= 0
        }),
{
    let (n, one, v) = (truncated(b), one_in_steps(), steps(b));
    let m = steps_of(magnitude(b));
    let w = whole_magnitude(b);
    lemma_whole(b);
    lemma_steps_of_zero();
    if magnitude(b) > 0 {
        lemma_steps_grow(0, magnitude(b));
    }
    lemma_fundamental_div_mod(m, one);
    vstd::arithmetic::div_mod::lemma_mod_bound(m, one);
    vstd::arithmetic::div_mod::lemma_div_pos_is_pos(m, one);
    let r = m % one;
    if b < 0x8000_0000_0000_0000 {
        assert(n * one <= m && (n == w ==> m < (n + 1) * one) && (-n) * one == -(n * one))
            by (nonlinear_arith)
            requires
                m == one * w + r,
                0 <= r < one,
                n <= w,
        ;
        assert(v == 0 ==> n == 0) by (nonlinear_arith)
            requires
                n * one <= v,
                one > 0,
                n >= 0,
        ;
        assert((n - 1) * one < v) by (nonlinear_arith)
            requires
                v == 0 ==> n == 0,
                v == m,
                v > 0 || v == 0,
                n * one <= v,
                one > 0,
        ;
        if v == 0 {
            assert(n * one == 0) by (nonlinear_arith)
                requires
                    n == 0,
            ;
        }
    } else {
        let k = -n;
        assert(k * one <= m && (k == w ==> m < (k + 1) * one)) by (nonlinear_arith)
            requires
                m == one * w + r,
                0 <= r < one,
                k <= w,
        ;
        assert(n * one == -(k * one) && (n - 1) * one == -((k + 1) * one) && (n + 1) * one == -((k
            - 1) * one)) by (nonlinear_arith)
            requires
                n == -k,
        ;
        assert(m == 0 ==> k == 0) by (nonlinear_arith)
            requires
                k * one <= m,
                one > 0,
                k >= 0,
        ;
        assert(m == 0 ==> (k - 1) * one < 0 && k * one == 0) by (nonlinear_arith)
            requires
                m == 0 ==> k == 0,
                one > 0,
        ;
    }
}

/// No other number is nearer to `numerator / denominator` than `b` is, to within half of the distance
/// of its neighbours.
pub open spec fn is_nearest(b: u64, numerator: int, denominator: int) -> bool {
    let off = significand(b) * denominator - numerator * pow2(scale(b) as nat);
    &&& is_finite(b) && b < 0x8000_0000_0000_0000 && scale(b) >= 0
    &&& -denominator <= 2 * off <= denominator
}

/// The settings are the decimal fractions that are meant by them, as near as the format allows.
pub proof fn law_settings()
    ensures
        is_nearest(MACHINE_TOLERANCE, 1, 1_000_000_000_000),
        is_nearest(NEGLIGIBLE, 1, 1_000_000_000_000),
        is_nearest(CONST_FOLD_TOLERANCE, 1, 1_000_000_000_000),
        is_nearest(INVISIBLE, 1, 10_000_000_000),
        is_nearest(NARROW, 1, 1_000_000),
        is_nearest(MARGIN_SHARE, 8, 100),
        is_nearest(SATURATION_SHARE, 7, 10),
        is_nearest(default_config().lambda, 5, 100),
        is_nearest(default_config().mutation_rate, 7, 10),
        is_nearest(default_config().crossover_rate, 3, 10),
        is_nearest(HALF_BITS, 1, 2),
        is_nearest(ONE_BITS, 1, 1),
        MINUS_ONE_BITS == negated(ONE_BITS),
        is_nearest(PLOT_XMAX, 1_000_000_000_000, 1),
        PLOT_XMIN == negated(PLOT_XMAX),
        is_nearest(PLOT_SMOOTHING_WINDOW, 1, 100),
        is_nearest(PLOT_SMOOTHING_SCALE, 1, 1),
{
    lemma2_to64();
    lemma2_to64_rest();
    lemma_pow2_adds(64, 28);
    lemma_pow2_adds(64, 22);
    lemma_pow2_adds(64, 8);
}

/// The sample points are the decimal fractions that are meant by them: `0.371+0.912i`,
/// `-1.234+0.567i`, `2.718-0.318i`, `-0.618-1.414i`, `1.618+2.236i` and `-2.5+1.1i`.
pub proof fn law_points()
    ensures
        points().len() == 6,
        is_nearest(points()[0].re, 371, 1000) && is_nearest(points()[0].im, 912, 1000),
        is_nearest(negated(points()[1].re), 1234, 1000) && is_nearest(points()[1].im, 567, 1000),
        is_nearest(points()[2].re, 2718, 1000) && is_nearest(negated(points()[2].im), 318, 1000),
        is_nearest(negated(points()[3].re), 618, 1000) && is_nearest(
            negated(points()[3].im),
            1414,
            1000,
        ),
        is_nearest(points()[4].re, 1618, 1000) && is_nearest(points()[4].im, 2236, 1000),
        is_nearest(negated(points()[5].re), 25, 10) && is_nearest(points()[5].im, 11, 10),
{
    lemma2_to64();
    lemma2_to64_rest();
}

/// Decimal digits do not start with a zero, but for zero itself.
proof fn lemma_no_leading_zero(n: nat)
    ensures
        n > 0 ==> decimal(n)[0] != '0',
        n == 0 ==> decimal(n).len() == 1,
    decreases n,
{
    if n >= 10 {
        lemma_no_leading_zero(n / 10);
        lemma_decimal_value(n / 10);
        assert(decimal(n)[0] == decimal(n / 10)[0]);
    }
}

/// The text of a constant without an imaginary part that stands for the whole number `n` is `n` in
/// decimal digits, without zeros in front, and behind a minus sign when it is negative.
pub proof fn law_whole_constant_text(v: Complex64, n: int)
    requires
        is_zero(v.im),
        is_finite(v.re),
        n * one_in_steps() == steps(v.re),
        i64::MIN <= n <= i64::MAX,
    ensures
        ({
            let t = const_text(v);
            let digits = if n < 0 {
                t.skip(1)
            } else {
                t
            };
            &&& n < 0 ==> t.len() > 0 && t[0] == '-'
            &&& digits.len() > 0 && all_digits(digits)
            &&& digits_value(digits) == if n < 0 {
                -n
            } else {
                n
            }
            &&& digits.len() == 1 || digits[0] != '0'
        }),
{
    let one = one_in_steps();
    let k = truncated(v.re);
    law_integral(v.re);
    assert(is_integral(v.re)) by {
        assert(n * one == steps(v.re));
    }
    law_truncated(v.re);
    lemma_pow2_pos(1074);
    assert(k == n) by (nonlinear_arith)
        requires
            one > 0,
            i64::MIN <= n <= i64::MAX,
            n * one >= 0 ==> k * one <= n * one && (n * one < (k + 1) * one || k == i64::MAX),
            n * one <= 0 ==> n * one <= k * one && ((k - 1) * one < n * one || k == i64::MIN),
    ;
    let size = (if n < 0 {
        -n
    } else {
        n
    }) as nat;
    let d = decimal(size);
    lemma_decimal_value(size);
    lemma_no_leading_zero(size);
    if n < 0 {
        assert(const_text(v).skip(1) =~= d);
    }
}

/// The outcome of a search takes the place of what it started from exactly when it is an exact match
/// whose fitness and the weighted number of operations of the other add up to more than zero. An
/// exact match that is only as fit never does.
pub proof fn law_takes_over(exact: bool, fitness: u64, cost: u64, lambda: u64)
    requires
        is_finite(fitness),
        is_finite(product(float_of(cost), lambda)),
    ensures
        takes_over(exact, fitness, cost, lambda) <==> exact && steps(fitness) + steps(
            product(float_of(cost), lambda),
        ) > 0,
{
    let bar = product(float_of(cost), lambda);
    law_negated(bar);
    law_order(negated(bar), fitness);
}

} // verus!
