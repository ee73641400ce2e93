//! Complex numbers with binary64 parts.

use num_complex::Complex64 as Pair;
use num_traits::FromBytes;
use vstd::prelude::*;

use crate::float::{float_difference, float_le, is_finite, is_nan, le, same_float, SIGN_BIT};

verus! {

/// A complex number: the bit patterns of its real and its imaginary part.
#[derive(Clone, Copy, Debug, PartialEq, Eq, Hash, Structural)]
pub struct Complex64 {
    pub re: u64,
    pub im: u64,
}

impl Complex64 {
    pub open spec fn finite(self) -> bool {
        is_finite(self.re) && is_finite(self.im)
    }

    pub fn new(re: u64, im: u64) -> (r: Complex64)
        ensures
            r == (Complex64 { re, im }),
    {
        Complex64 { re, im }
    }
}

/// The number zero.
pub open spec fn zero() -> Complex64 {
    Complex64 { re: 0, im: 0 }
}

/// `r` is a value that the complex exponential may give for `z`. The last digits of the
/// exponential and of the trigonometric functions under it differ between machines, so that
/// there may be more than one.
pub uninterp spec fn exp_outcome(z: Complex64, r: Complex64) -> bool;

/// `r` is a value that the principal complex logarithm may give for `z`; as for the
/// exponential there may be more than one.
pub uninterp spec fn ln_outcome(z: Complex64, r: Complex64) -> bool;

/// `r` is a value that the modulus may give for `z`; as for the exponential there may be more
/// than one.
pub uninterp spec fn norm_outcome(z: Complex64, r: u64) -> bool;

/// `d` is the difference `a - b`, part by part.
pub open spec fn difference(a: Complex64, b: Complex64, d: Complex64) -> bool {
    same_float(d.re, float_difference(a.re, b.re)) && same_float(d.im, float_difference(a.im, b.im))
}

/// `r` is a value that `exp(a) - ln(b)`, the one primitive of the language, may have.
pub open spec fn prim_outcome(a: Complex64, b: Complex64, r: Complex64) -> bool {
    exists|x: Complex64, y: Complex64|
        #![trigger exp_outcome(a, x), ln_outcome(b, y)]
        exp_outcome(a, x) && ln_outcome(b, y) && difference(x, y, r)
}

/// The modulus of `a - b` may come out at most `tolerance`.
pub open spec fn may_be_within(a: Complex64, b: Complex64, tolerance: u64) -> bool {
    exists|d: Complex64, n: u64| #[trigger]
        difference(a, b, d) && #[trigger] norm_outcome(d, n) && float_le(n, tolerance)
}

/// The modulus of `a - b` may come out above `tolerance`, or no number at all.
pub open spec fn may_exceed(a: Complex64, b: Complex64, tolerance: u64) -> bool {
    exists|d: Complex64, n: u64| #[trigger]
        difference(a, b, d) && #[trigger] norm_outcome(d, n) && !float_le(n, tolerance)
}

/// `Complex::exp` of `num_complex`: some value that the complex exponential may give. Nothing
/// is said of how close to the exact value it is.
#[verifier::external_body]
pub(crate) fn complex_exp(z: Complex64) -> (r: Complex64)
    ensures
        exp_outcome(z, r),
{
    let p = Pair::new(FromBytes::from_le_bytes(&z.re.to_le_bytes()), FromBytes::from_le_bytes(&z.im.to_le_bytes()));
    let q = p.exp();
    Complex64 { re: q.re.to_bits(), im: q.im.to_bits() }
}

/// `Complex::ln` of `num_complex`: some value that the principal logarithm may give. Nothing
/// is said of how close to the exact value it is.
#[verifier::external_body]
pub(crate) fn complex_ln(z: Complex64) -> (r: Complex64)
    ensures
        ln_outcome(z, r),
{
    let p = Pair::new(FromBytes::from_le_bytes(&z.re.to_le_bytes()), FromBytes::from_le_bytes(&z.im.to_le_bytes()));
    let q = p.ln();
    Complex64 { re: q.re.to_bits(), im: q.im.to_bits() }
}

/// The `-` of `num_complex`: each part is the difference of the parts, and a finite number
/// less itself is zero.
#[verifier::external_body]
pub(crate) fn complex_sub(a: Complex64, b: Complex64) -> (r: Complex64)
    ensures
        difference(a, b, r),
        a == b && a.finite() ==> r == zero(),
{
    let p = Pair::new(FromBytes::from_le_bytes(&a.re.to_le_bytes()), FromBytes::from_le_bytes(&a.im.to_le_bytes()));
    let q = Pair::new(FromBytes::from_le_bytes(&b.re.to_le_bytes()), FromBytes::from_le_bytes(&b.im.to_le_bytes()));
    let d = p - q;
    Complex64 { re: d.re.to_bits(), im: d.im.to_bits() }
}

/// `Complex::norm` of `num_complex`: some value that the modulus may give, which is zero for
/// zero. Nothing is said of how close to the exact value it is otherwise.
#[verifier::external_body]
pub(crate) fn complex_norm(z: Complex64) -> (r: u64)
    ensures
        norm_outcome(z, r),
        z == zero() ==> r == 0,
{
    let p = Pair::new(FromBytes::from_le_bytes(&z.re.to_le_bytes()), FromBytes::from_le_bytes(&z.im.to_le_bytes()));
    p.norm().to_bits()
}

/// The one primitive of the language: `exp(a) - ln(b)`.
pub fn eml(a: Complex64, b: Complex64) -> (r: Complex64)
    ensures
        prim_outcome(a, b, r),
{
    let x = complex_exp(a);
    let y = complex_ln(b);
    complex_sub(x, y)
}

/// Whether the distance of `a` and `b` comes out at most `tolerance`. A finite number is
/// within every tolerance of itself.
pub fn within(a: Complex64, b: Complex64, tolerance: u64) -> (r: bool)
    ensures
        r ==> may_be_within(a, b, tolerance),
        !r ==> may_exceed(a, b, tolerance),
        a == b && a.finite() && !is_nan(tolerance) && tolerance < SIGN_BIT ==> r,
{
    let d = complex_sub(a, b);
    let n = complex_norm(d);
    le(n, tolerance)
}

} // verus!
