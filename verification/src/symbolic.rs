//! Symbolic expressions for constant values, and their simplification.

use vstd::prelude::*;

use crate::complex::Complex64;
use crate::float::{check_zero, eq, fixed_text, float_eq, format_fixed, is_zero, SIGN_BIT};
use crate::text::{
    lemma_joined, lemma_signed_solid, lemma_solid, one_line, plain_line, push_i64, signed_decimal,
};

verus! {

/// A symbolic constant expression.
#[derive(Debug)]
pub enum SymbolicExpr {
    Num(i64),
    Float(u64),
    Complex(Complex64),
    E,
    Pi,
    I,
    Inf(bool),
    Add(Box<SymbolicExpr>, Box<SymbolicExpr>),
    Sub(Box<SymbolicExpr>, Box<SymbolicExpr>),
    Mul(Box<SymbolicExpr>, Box<SymbolicExpr>),
    Div(Box<SymbolicExpr>, Box<SymbolicExpr>),
    Pow(Box<SymbolicExpr>, Box<SymbolicExpr>),
    Ln(Box<SymbolicExpr>),
    Exp(Box<SymbolicExpr>),
    Neg(Box<SymbolicExpr>),
}

/// Equality of symbolic expressions: the same shape with equal leaves, numbers being compared
/// as numbers.
pub open spec fn same_symbol(a: SymbolicExpr, b: SymbolicExpr) -> bool
    decreases a,
{
    match (a, b) {
        (SymbolicExpr::Num(m), SymbolicExpr::Num(n)) => m == n,
        (SymbolicExpr::Float(x), SymbolicExpr::Float(y)) => float_eq(x, y),
        (SymbolicExpr::Complex(x), SymbolicExpr::Complex(y)) => float_eq(x.re, y.re) && float_eq(
            x.im,
            y.im,
        ),
        (SymbolicExpr::E, SymbolicExpr::E) => true,
        (SymbolicExpr::Pi, SymbolicExpr::Pi) => true,
        (SymbolicExpr::I, SymbolicExpr::I) => true,
        (SymbolicExpr::Inf(x), SymbolicExpr::Inf(y)) => x == y,
        (SymbolicExpr::Add(a1, a2), SymbolicExpr::Add(b1, b2)) => same_symbol(*a1, *b1)
            && same_symbol(*a2, *b2),
        (SymbolicExpr::Sub(a1, a2), SymbolicExpr::Sub(b1, b2)) => same_symbol(*a1, *b1)
            && same_symbol(*a2, *b2),
        (SymbolicExpr::Mul(a1, a2), SymbolicExpr::Mul(b1, b2)) => same_symbol(*a1, *b1)
            && same_symbol(*a2, *b2),
        (SymbolicExpr::Div(a1, a2), SymbolicExpr::Div(b1, b2)) => same_symbol(*a1, *b1)
            && same_symbol(*a2, *b2),
        (SymbolicExpr::Pow(a1, a2), SymbolicExpr::Pow(b1, b2)) => same_symbol(*a1, *b1)
            && same_symbol(*a2, *b2),
        (SymbolicExpr::Ln(x), SymbolicExpr::Ln(y)) => same_symbol(*x, *y),
        (SymbolicExpr::Exp(x), SymbolicExpr::Exp(y)) => same_symbol(*x, *y),
        (SymbolicExpr::Neg(x), SymbolicExpr::Neg(y)) => same_symbol(*x, *y),
        _ => false,
    }
}

impl SymbolicExpr {
    /// A copy of the expression.
    pub fn copy(&self) -> (r: SymbolicExpr)
        ensures
            r == *self,
        decreases *self,
    {
        match self {
            SymbolicExpr::Num(n) => SymbolicExpr::Num(*n),
            SymbolicExpr::Float(x) => SymbolicExpr::Float(*x),
            SymbolicExpr::Complex(z) => SymbolicExpr::Complex(*z),
            SymbolicExpr::E => SymbolicExpr::E,
            SymbolicExpr::Pi => SymbolicExpr::Pi,
            SymbolicExpr::I => SymbolicExpr::I,
            SymbolicExpr::Inf(p) => SymbolicExpr::Inf(*p),
            SymbolicExpr::Add(a, b) => SymbolicExpr::Add(Box::new(a.copy()), Box::new(b.copy())),
            SymbolicExpr::Sub(a, b) => SymbolicExpr::Sub(Box::new(a.copy()), Box::new(b.copy())),
            SymbolicExpr::Mul(a, b) => SymbolicExpr::Mul(Box::new(a.copy()), Box::new(b.copy())),
            SymbolicExpr::Div(a, b) => SymbolicExpr::Div(Box::new(a.copy()), Box::new(b.copy())),
            SymbolicExpr::Pow(a, b) => SymbolicExpr::Pow(Box::new(a.copy()), Box::new(b.copy())),
            SymbolicExpr::Ln(a) => SymbolicExpr::Ln(Box::new(a.copy())),
            SymbolicExpr::Exp(a) => SymbolicExpr::Exp(Box::new(a.copy())),
            SymbolicExpr::Neg(a) => SymbolicExpr::Neg(Box::new(a.copy())),
        }
    }

    /// Whether the two expressions are equal, numbers being compared as numbers.
    pub fn same(&self, other: &SymbolicExpr) -> (r: bool)
        ensures
            r == same_symbol(*self, *other),
        decreases *self,
    {
        match (self, other) {
            (SymbolicExpr::Num(m), SymbolicExpr::Num(n)) => *m == *n,
            (SymbolicExpr::Float(x), SymbolicExpr::Float(y)) => eq(*x, *y),
            (SymbolicExpr::Complex(x), SymbolicExpr::Complex(y)) => eq(x.re, y.re) && eq(x.im, y.im),
            (SymbolicExpr::E, SymbolicExpr::E) => true,
            (SymbolicExpr::Pi, SymbolicExpr::Pi) => true,
            (SymbolicExpr::I, SymbolicExpr::I) => true,
            (SymbolicExpr::Inf(x), SymbolicExpr::Inf(y)) => *x == *y,
            (SymbolicExpr::Add(a1, a2), SymbolicExpr::Add(b1, b2)) => a1.same(b1) && a2.same(b2),
            (SymbolicExpr::Sub(a1, a2), SymbolicExpr::Sub(b1, b2)) => a1.same(b1) && a2.same(b2),
            (SymbolicExpr::Mul(a1, a2), SymbolicExpr::Mul(b1, b2)) => a1.same(b1) && a2.same(b2),
            (SymbolicExpr::Div(a1, a2), SymbolicExpr::Div(b1, b2)) => a1.same(b1) && a2.same(b2),
            (SymbolicExpr::Pow(a1, a2), SymbolicExpr::Pow(b1, b2)) => a1.same(b1) && a2.same(b2),
            (SymbolicExpr::Ln(x), SymbolicExpr::Ln(y)) => x.same(y),
            (SymbolicExpr::Exp(x), SymbolicExpr::Exp(y)) => x.same(y),
            (SymbolicExpr::Neg(x), SymbolicExpr::Neg(y)) => x.same(y),
            _ => false,
        }
    }
}

/// `n`, when it fits.
pub open spec fn num(n: int) -> Option<SymbolicExpr> {
    if i64::MIN <= n <= i64::MAX {
        Some(SymbolicExpr::Num(n as i64))
    } else {
        None
    }
}

/// `i * pi`.
pub open spec fn i_pi() -> SymbolicExpr {
    SymbolicExpr::Mul(Box::new(SymbolicExpr::I), Box::new(SymbolicExpr::Pi))
}

/// `i * pi / 2`.
pub open spec fn half_i_pi() -> SymbolicExpr {
    SymbolicExpr::Div(Box::new(i_pi()), Box::new(SymbolicExpr::Num(2)))
}

/// `e` is a product of `i` and `pi`, in either order.
pub open spec fn is_i_pi(e: SymbolicExpr) -> bool {
    e matches SymbolicExpr::Mul(a, b) && ((*a == SymbolicExpr::I && *b == SymbolicExpr::Pi) || (*a
        == SymbolicExpr::Pi && *b == SymbolicExpr::I))
}

/// The logarithm of `y` is taken factor by factor: `y` is a product with an exponential in it.
pub open spec fn ln_splits(y: SymbolicExpr) -> bool {
    y matches SymbolicExpr::Mul(a, b) && (*a is Exp || *b is Exp)
}

/// The logarithm of a `y` that is not split.
pub open spec fn ln_of(y: SymbolicExpr) -> SymbolicExpr {
    match y {
        SymbolicExpr::Num(n) => if n == 1 {
            SymbolicExpr::Num(0)
        } else if n == -1 {
            i_pi()
        } else if n == 0 {
            SymbolicExpr::Inf(false)
        } else {
            SymbolicExpr::Ln(Box::new(y))
        },
        SymbolicExpr::E => SymbolicExpr::Num(1),
        SymbolicExpr::Exp(x) => *x,
        SymbolicExpr::Pow(b, x) => if *b == SymbolicExpr::E {
            *x
        } else {
            SymbolicExpr::Ln(Box::new(y))
        },
        SymbolicExpr::Inf(p) => if p {
            SymbolicExpr::Inf(true)
        } else {
            SymbolicExpr::Ln(Box::new(y))
        },
        SymbolicExpr::I => half_i_pi(),
        SymbolicExpr::Neg(x) => if *x == SymbolicExpr::I {
            SymbolicExpr::Neg(Box::new(half_i_pi()))
        } else {
            SymbolicExpr::Ln(Box::new(y))
        },
        _ => SymbolicExpr::Ln(Box::new(y)),
    }
}

/// The exponential of a `y` that is no sum.
pub open spec fn exp_of(y: SymbolicExpr) -> SymbolicExpr {
    match y {
        SymbolicExpr::Num(n) => if n == 0 {
            SymbolicExpr::Num(1)
        } else if n == 1 {
            SymbolicExpr::E
        } else {
            SymbolicExpr::Exp(Box::new(y))
        },
        SymbolicExpr::Ln(x) => *x,
        SymbolicExpr::Inf(p) => if p {
            SymbolicExpr::Inf(true)
        } else {
            SymbolicExpr::Num(0)
        },
        SymbolicExpr::Mul(_, _) => if is_i_pi(y) {
            SymbolicExpr::Num((-1) as i64)
        } else {
            SymbolicExpr::Exp(Box::new(y))
        },
        SymbolicExpr::Div(a, b) => if *b == SymbolicExpr::Num(2) && is_i_pi(*a) {
            SymbolicExpr::I
        } else {
            SymbolicExpr::Exp(Box::new(y))
        },
        _ => SymbolicExpr::Exp(Box::new(y)),
    }
}

/// The difference `a - b` is taken as the sum of `a` and what `b` negates.
pub open spec fn sub_turns(a: SymbolicExpr, b: SymbolicExpr) -> bool {
    b is Neg && !same_symbol(a, b) && a != SymbolicExpr::Num(0)
}

/// The difference `a - b` when it is not turned into a sum; none when it is a number out of
/// range.
pub open spec fn sub_of(a: SymbolicExpr, b: SymbolicExpr) -> Option<SymbolicExpr> {
    if same_symbol(a, b) {
        Some(SymbolicExpr::Num(0))
    } else if b == SymbolicExpr::Num(0) {
        Some(a)
    } else if a == SymbolicExpr::Num(0) {
        match b {
            SymbolicExpr::Inf(p) => Some(SymbolicExpr::Inf(!p)),
            SymbolicExpr::Neg(x) => Some(*x),
            _ => Some(SymbolicExpr::Neg(Box::new(b))),
        }
    } else {
        match (a, b) {
            (SymbolicExpr::Num(m), SymbolicExpr::Num(n)) => num(m - n),
            (SymbolicExpr::Ln(x), SymbolicExpr::Ln(y)) => Some(
                SymbolicExpr::Ln(Box::new(SymbolicExpr::Div(x, y))),
            ),
            (_, SymbolicExpr::Inf(p)) => Some(SymbolicExpr::Inf(!p)),
            (_, SymbolicExpr::Sub(x, y)) => if same_symbol(a, *x) {
                Some(*y)
            } else if a is Inf {
                Some(a)
            } else {
                Some(SymbolicExpr::Sub(Box::new(a), Box::new(b)))
            },
            (SymbolicExpr::Inf(_), _) => Some(a),
            (_, SymbolicExpr::Add(x, y)) => if same_symbol(a, *x) {
                Some(SymbolicExpr::Neg(y))
            } else if same_symbol(a, *y) {
                Some(SymbolicExpr::Neg(x))
            } else {
                Some(SymbolicExpr::Sub(Box::new(a), Box::new(b)))
            },
            _ => Some(SymbolicExpr::Sub(Box::new(a), Box::new(b))),
        }
    }
}

/// The product of `a` and `b`; none when it is a number out of range.
pub open spec fn mul_of(a: SymbolicExpr, b: SymbolicExpr) -> Option<SymbolicExpr> {
    if a == SymbolicExpr::Num(0) || b == SymbolicExpr::Num(0) {
        Some(SymbolicExpr::Num(0))
    } else if a == SymbolicExpr::Num(1) {
        Some(b)
    } else if b == SymbolicExpr::Num(1) {
        Some(a)
    } else {
        match (a, b) {
            (SymbolicExpr::Num(m), SymbolicExpr::Num(n)) => num(m * n),
            _ => Some(SymbolicExpr::Mul(Box::new(a), Box::new(b))),
        }
    }
}

/// The quotient of `a` and `b`; none when it is a number out of range.
pub open spec fn div_of(a: SymbolicExpr, b: SymbolicExpr) -> Option<SymbolicExpr> {
    if same_symbol(a, b) {
        Some(SymbolicExpr::Num(1))
    } else if b == SymbolicExpr::Num(1) {
        Some(a)
    } else if a == SymbolicExpr::Num(0) {
        Some(SymbolicExpr::Num(0))
    } else {
        match (a, b) {
            (SymbolicExpr::Num(m), SymbolicExpr::Num(n)) => if n != 0 && (m as int) % (n as int)
                == 0 {
                num((m as int) / (n as int))
            } else {
                Some(SymbolicExpr::Div(Box::new(a), Box::new(b)))
            },
            _ => Some(SymbolicExpr::Div(Box::new(a), Box::new(b))),
        }
    }
}

/// The negation of `y`; none when it is a number out of range.
pub open spec fn neg_of(y: SymbolicExpr) -> Option<SymbolicExpr> {
    match y {
        SymbolicExpr::Neg(x) => Some(*x),
        SymbolicExpr::Num(n) => num(-n),
        _ => Some(SymbolicExpr::Neg(Box::new(y))),
    }
}

/// The difference that the sum of `a` and `b` is taken as, when one of them is a negation.
pub open spec fn add_turned(a: SymbolicExpr, b: SymbolicExpr) -> Option<SymbolicExpr> {
    if a == SymbolicExpr::Num(0) || b == SymbolicExpr::Num(0) {
        None
    } else {
        match (a, b) {
            (SymbolicExpr::Neg(x), _) => Some(SymbolicExpr::Sub(Box::new(b), x)),
            (_, SymbolicExpr::Neg(y)) => Some(SymbolicExpr::Sub(Box::new(a), y)),
            _ => None,
        }
    }
}

/// The sum of `a` and `b` when neither is a negation; none when it is a number out of range.
pub open spec fn add_of(a: SymbolicExpr, b: SymbolicExpr) -> Option<SymbolicExpr> {
    if a == SymbolicExpr::Num(0) {
        Some(b)
    } else if b == SymbolicExpr::Num(0) {
        Some(a)
    } else {
        match (a, b) {
            (SymbolicExpr::Num(m), SymbolicExpr::Num(n)) => num(m + n),
            _ => Some(SymbolicExpr::Add(Box::new(a), Box::new(b))),
        }
    }
}

/// A size that no simplification step increases.
pub open spec fn weight(e: SymbolicExpr) -> nat
    decreases e,
{
    match e {
        SymbolicExpr::Pi => 2,
        SymbolicExpr::Add(a, b) => weight(*a) + weight(*b) + 2,
        SymbolicExpr::Sub(a, b) => weight(*a) + weight(*b) + 2,
        SymbolicExpr::Mul(a, b) => weight(*a) + weight(*b) + 2,
        SymbolicExpr::Div(a, b) => weight(*a) + weight(*b) + 1,
        SymbolicExpr::Pow(a, b) => weight(*a) + weight(*b) + 1,
        SymbolicExpr::Ln(a) => 3 * weight(*a) + 1,
        SymbolicExpr::Exp(a) => 2 * weight(*a) + 1,
        SymbolicExpr::Neg(a) => weight(*a) + 1,
        _ => 5,
    }
}

/// One bottom-up pass of simplification; none when a number comes out of range.
///
/// The pass that a part is given again is always on something lighter than the whole
/// (`lemma_simplified_lighter`), so that the bounds below never cut anything off.
pub open spec fn simplified(e: SymbolicExpr) -> Option<SymbolicExpr>
    decreases weight(e),
{
    match e {
        SymbolicExpr::Ln(x) => match simplified(*x) {
            None => None,
            Some(y) => if ln_splits(y) {
                let la = SymbolicExpr::Ln(y->Mul_0);
                let lb = SymbolicExpr::Ln(y->Mul_1);
                if weight(la) < weight(e) && weight(lb) < weight(e) {
                    match (simplified(la), simplified(lb)) {
                        (Some(p), Some(q)) => {
                            let sum = SymbolicExpr::Add(Box::new(p), Box::new(q));
                            if weight(sum) < weight(e) {
                                simplified(sum)
                            } else {
                                None
                            }
                        },
                        _ => None,
                    }
                } else {
                    None
                }
            } else {
                Some(ln_of(y))
            },
        },
        SymbolicExpr::Exp(x) => match simplified(*x) {
            None => None,
            Some(y) => match y {
                SymbolicExpr::Add(a, b) => {
                    let product = SymbolicExpr::Mul(
                        Box::new(SymbolicExpr::Exp(a)),
                        Box::new(SymbolicExpr::Exp(b)),
                    );
                    if weight(product) < weight(e) {
                        simplified(product)
                    } else {
                        None
                    }
                },
                _ => Some(exp_of(y)),
            },
        },
        SymbolicExpr::Sub(a, b) => match (simplified(*a), simplified(*b)) {
            (Some(p), Some(q)) => if sub_turns(p, q) {
                let sum = SymbolicExpr::Add(Box::new(p), q->Neg_0);
                if weight(sum) < weight(e) {
                    simplified(sum)
                } else {
                    None
                }
            } else {
                sub_of(p, q)
            },
            _ => None,
        },
        SymbolicExpr::Mul(a, b) => match (simplified(*a), simplified(*b)) {
            (Some(p), Some(q)) => mul_of(p, q),
            _ => None,
        },
        SymbolicExpr::Div(a, b) => match (simplified(*a), simplified(*b)) {
            (Some(p), Some(q)) => div_of(p, q),
            _ => None,
        },
        SymbolicExpr::Neg(x) => match simplified(*x) {
            None => None,
            Some(y) => neg_of(y),
        },
        SymbolicExpr::Add(a, b) => match (simplified(*a), simplified(*b)) {
            (Some(p), Some(q)) => match add_turned(p, q) {
                Some(turned) => if weight(turned) < weight(e) {
                    simplified(turned)
                } else {
                    None
                },
                None => add_of(p, q),
            },
            _ => None,
        },
        _ => Some(e),
    }
}

/// Simplification never makes an expression heavier.
pub proof fn lemma_simplified_lighter(e: SymbolicExpr)
    ensures
        simplified(e) matches Some(r) ==> weight(r) <= weight(e),
    decreases weight(e),
{
    match e {
        SymbolicExpr::Ln(x) => {
            lemma_simplified_lighter(*x);
            if let Some(y) = simplified(*x) {
                if ln_splits(y) {
                    let la = SymbolicExpr::Ln(y->Mul_0);
                    let lb = SymbolicExpr::Ln(y->Mul_1);
                    lemma_simplified_lighter(la);
                    lemma_simplified_lighter(lb);
                    if let (Some(p), Some(q)) = (simplified(la), simplified(lb)) {
                        let sum = SymbolicExpr::Add(Box::new(p), Box::new(q));
                        assert(weight(sum) < weight(e));
                        lemma_simplified_lighter(sum);
                    }
                } else {
                    lemma_ln_lighter(y);
                }
            }
        },
        SymbolicExpr::Exp(x) => {
            lemma_simplified_lighter(*x);
            if let Some(y) = simplified(*x) {
                if let SymbolicExpr::Add(a, b) = y {
                    let ea = SymbolicExpr::Exp(a);
                    let eb = SymbolicExpr::Exp(b);
                    let product = SymbolicExpr::Mul(Box::new(ea), Box::new(eb));
                    assert(weight(ea) == 2 * weight(*a) + 1);
                    assert(weight(eb) == 2 * weight(*b) + 1);
                    assert(weight(product) < weight(e));
                    lemma_simplified_lighter(product);
                } else {
                    lemma_exp_lighter(y);
                }
            }
        },
        SymbolicExpr::Sub(a, b) => {
            lemma_simplified_lighter(*a);
            lemma_simplified_lighter(*b);
            if let (Some(p), Some(q)) = (simplified(*a), simplified(*b)) {
                if sub_turns(p, q) {
                    let sum = SymbolicExpr::Add(Box::new(p), q->Neg_0);
                    assert(weight(sum) < weight(e));
                    lemma_simplified_lighter(sum);
                } else {
                    lemma_sub_lighter(p, q);
                }
            }
        },
        SymbolicExpr::Mul(a, b) => {
            lemma_simplified_lighter(*a);
            lemma_simplified_lighter(*b);
        },
        SymbolicExpr::Div(a, b) => {
            lemma_simplified_lighter(*a);
            lemma_simplified_lighter(*b);
            if let (Some(p), Some(q)) = (simplified(*a), simplified(*b)) {
                lemma_weight_least(p);
                lemma_weight_least(q);
            }
        },
        SymbolicExpr::Neg(x) => {
            lemma_simplified_lighter(*x);
        },
        SymbolicExpr::Add(a, b) => {
            lemma_simplified_lighter(*a);
            lemma_simplified_lighter(*b);
            if let (Some(p), Some(q)) = (simplified(*a), simplified(*b)) {
                if let Some(turned) = add_turned(p, q) {
                    assert(weight(turned) < weight(e));
                    lemma_simplified_lighter(turned);
                }
            }
        },
        _ => {},
    }
}

proof fn lemma_weight_least(e: SymbolicExpr)
    ensures
        weight(e) >= 2,
    decreases e,
{
    match e {
        SymbolicExpr::Add(a, b) => {},
        SymbolicExpr::Sub(a, b) => {},
        SymbolicExpr::Mul(a, b) => {},
        SymbolicExpr::Div(a, b) => {
            lemma_weight_least(*a);
        },
        SymbolicExpr::Pow(a, b) => {
            lemma_weight_least(*a);
        },
        SymbolicExpr::Ln(a) => {
            lemma_weight_least(*a);
        },
        SymbolicExpr::Exp(a) => {
            lemma_weight_least(*a);
        },
        SymbolicExpr::Neg(a) => {
            lemma_weight_least(*a);
        },
        _ => {},
    }
}

proof fn lemma_ln_lighter(y: SymbolicExpr)
    ensures
        weight(ln_of(y)) <= 3 * weight(y) + 1,
{
    reveal_with_fuel(weight, 5);
}

proof fn lemma_exp_lighter(y: SymbolicExpr)
    ensures
        weight(exp_of(y)) <= 2 * weight(y) + 1,
{
    lemma_weight_least(y);
    reveal_with_fuel(weight, 3);
}

proof fn lemma_sub_lighter(a: SymbolicExpr, b: SymbolicExpr)
    ensures
        sub_of(a, b) matches Some(r) ==> weight(r) <= weight(a) + weight(b) + 2,
{
    lemma_weight_least(a);
    lemma_weight_least(b);
    reveal_with_fuel(weight, 3);
}

impl SymbolicExpr {
    fn is_num(&self, n: i64) -> (r: bool)
        ensures
            r == (*self == SymbolicExpr::Num(n)),
    {
        match self {
            SymbolicExpr::Num(m) => *m == n,
            _ => false,
        }
    }

    fn is_e(&self) -> (r: bool)
        ensures
            r == (*self == SymbolicExpr::E),
    {
        matches!(self, SymbolicExpr::E)
    }

    fn is_pi(&self) -> (r: bool)
        ensures
            r == (*self == SymbolicExpr::Pi),
    {
        matches!(self, SymbolicExpr::Pi)
    }

    fn is_i(&self) -> (r: bool)
        ensures
            r == (*self == SymbolicExpr::I),
    {
        matches!(self, SymbolicExpr::I)
    }

    fn is_exp(&self) -> (r: bool)
        ensures
            r == (*self is Exp),
    {
        matches!(self, SymbolicExpr::Exp(_))
    }

    fn is_times_i_pi(&self) -> (r: bool)
        ensures
            r == is_i_pi(*self),
    {
        match self {
            SymbolicExpr::Mul(a, b) => (a.is_i() && b.is_pi()) || (a.is_pi() && b.is_i()),
            _ => false,
        }
    }
}

fn make_i_pi() -> (r: SymbolicExpr)
    ensures
        r == i_pi(),
{
    SymbolicExpr::Mul(Box::new(SymbolicExpr::I), Box::new(SymbolicExpr::Pi))
}

fn make_half_i_pi() -> (r: SymbolicExpr)
    ensures
        r == half_i_pi(),
{
    SymbolicExpr::Div(Box::new(make_i_pi()), Box::new(SymbolicExpr::Num(2)))
}

fn make_ln(y: SymbolicExpr) -> (r: SymbolicExpr)
    ensures
        r == ln_of(y),
{
    match y {
        SymbolicExpr::Num(n) => if n == 1 {
            SymbolicExpr::Num(0)
        } else if n == -1 {
            make_i_pi()
        } else if n == 0 {
            SymbolicExpr::Inf(false)
        } else {
            SymbolicExpr::Ln(Box::new(SymbolicExpr::Num(n)))
        },
        SymbolicExpr::E => SymbolicExpr::Num(1),
        SymbolicExpr::Exp(x) => *x,
        SymbolicExpr::Pow(b, x) => if b.is_e() {
            *x
        } else {
            SymbolicExpr::Ln(Box::new(SymbolicExpr::Pow(b, x)))
        },
        SymbolicExpr::Inf(p) => if p {
            SymbolicExpr::Inf(true)
        } else {
            SymbolicExpr::Ln(Box::new(SymbolicExpr::Inf(p)))
        },
        SymbolicExpr::I => make_half_i_pi(),
        SymbolicExpr::Neg(x) => if x.is_i() {
            SymbolicExpr::Neg(Box::new(make_half_i_pi()))
        } else {
            SymbolicExpr::Ln(Box::new(SymbolicExpr::Neg(x)))
        },
        other => SymbolicExpr::Ln(Box::new(other)),
    }
}

fn make_exp(y: SymbolicExpr) -> (r: SymbolicExpr)
    ensures
        r == exp_of(y),
{
    match y {
        SymbolicExpr::Num(n) => if n == 0 {
            SymbolicExpr::Num(1)
        } else if n == 1 {
            SymbolicExpr::E
        } else {
            SymbolicExpr::Exp(Box::new(SymbolicExpr::Num(n)))
        },
        SymbolicExpr::Ln(x) => *x,
        SymbolicExpr::Inf(p) => if p {
            SymbolicExpr::Inf(true)
        } else {
            SymbolicExpr::Num(0)
        },
        SymbolicExpr::Div(a, b) => if b.is_num(2) && a.is_times_i_pi() {
            SymbolicExpr::I
        } else {
            SymbolicExpr::Exp(Box::new(SymbolicExpr::Div(a, b)))
        },
        other => if other.is_times_i_pi() {
            SymbolicExpr::Num(-1)
        } else {
            SymbolicExpr::Exp(Box::new(other))
        },
    }
}

fn make_num(n: Option<i64>) -> (r: Option<SymbolicExpr>)
    ensures
        r == (match n {
            Some(m) => Some(SymbolicExpr::Num(m)),
            None => None,
        }),
{
    match n {
        Some(m) => Some(SymbolicExpr::Num(m)),
        None => None,
    }
}

fn make_sub(a: SymbolicExpr, b: SymbolicExpr) -> (r: Option<SymbolicExpr>)
    ensures
        r == sub_of(a, b),
{
    if a.same(&b) {
        return Some(SymbolicExpr::Num(0));
    }
    if b.is_num(0) {
        return Some(a);
    }
    if a.is_num(0) {
        return match b {
            SymbolicExpr::Inf(p) => Some(SymbolicExpr::Inf(!p)),
            SymbolicExpr::Neg(x) => Some(*x),
            other => Some(SymbolicExpr::Neg(Box::new(other))),
        };
    }
    match (a, b) {
        (SymbolicExpr::Num(m), SymbolicExpr::Num(n)) => make_num(m.checked_sub(n)),
        (SymbolicExpr::Ln(x), SymbolicExpr::Ln(y)) => Some(
            SymbolicExpr::Ln(Box::new(SymbolicExpr::Div(x, y))),
        ),
        (_, SymbolicExpr::Inf(p)) => Some(SymbolicExpr::Inf(!p)),
        (l, SymbolicExpr::Sub(x, y)) => if l.same(&*x) {
            Some(*y)
        } else {
            match l {
                SymbolicExpr::Inf(p) => Some(SymbolicExpr::Inf(p)),
                other => Some(
                    SymbolicExpr::Sub(Box::new(other), Box::new(SymbolicExpr::Sub(x, y))),
                ),
            }
        },
        (SymbolicExpr::Inf(p), _) => Some(SymbolicExpr::Inf(p)),
        (l, SymbolicExpr::Add(x, y)) => if l.same(&*x) {
            Some(SymbolicExpr::Neg(y))
        } else if l.same(&*y) {
            Some(SymbolicExpr::Neg(x))
        } else {
            Some(SymbolicExpr::Sub(Box::new(l), Box::new(SymbolicExpr::Add(x, y))))
        },
        (l, r) => Some(SymbolicExpr::Sub(Box::new(l), Box::new(r))),
    }
}

fn make_mul(a: SymbolicExpr, b: SymbolicExpr) -> (r: Option<SymbolicExpr>)
    ensures
        r == mul_of(a, b),
{
    if a.is_num(0) || b.is_num(0) {
        return Some(SymbolicExpr::Num(0));
    }
    if a.is_num(1) {
        return Some(b);
    }
    if b.is_num(1) {
        return Some(a);
    }
    match (a, b) {
        (SymbolicExpr::Num(m), SymbolicExpr::Num(n)) => make_num(m.checked_mul(n)),
        (l, r) => Some(SymbolicExpr::Mul(Box::new(l), Box::new(r))),
    }
}

fn make_div(a: SymbolicExpr, b: SymbolicExpr) -> (r: Option<SymbolicExpr>)
    ensures
        r == div_of(a, b),
{
    if a.same(&b) {
        return Some(SymbolicExpr::Num(1));
    }
    if b.is_num(1) {
        return Some(a);
    }
    if a.is_num(0) {
        return Some(SymbolicExpr::Num(0));
    }
    match (a, b) {
        (SymbolicExpr::Num(m), SymbolicExpr::Num(n)) => {
            if m == i64::MIN && n == -1 {
                return None;
            }
            match m.checked_rem_euclid(n) {
                Some(0) => make_num(m.checked_div_euclid(n)),
                _ => Some(
                    SymbolicExpr::Div(
                        Box::new(SymbolicExpr::Num(m)),
                        Box::new(SymbolicExpr::Num(n)),
                    ),
                ),
            }
        },
        (l, r) => Some(SymbolicExpr::Div(Box::new(l), Box::new(r))),
    }
}

fn make_neg(y: SymbolicExpr) -> (r: Option<SymbolicExpr>)
    ensures
        r == neg_of(y),
{
    match y {
        SymbolicExpr::Neg(x) => Some(*x),
        SymbolicExpr::Num(n) => if n == i64::MIN {
            None
        } else {
            Some(SymbolicExpr::Num(-n))
        },
        other => Some(SymbolicExpr::Neg(Box::new(other))),
    }
}

fn make_add(a: SymbolicExpr, b: SymbolicExpr) -> (r: Option<SymbolicExpr>)
    ensures
        r == add_of(a, b),
{
    if a.is_num(0) {
        return Some(b);
    }
    if b.is_num(0) {
        return Some(a);
    }
    match (a, b) {
        (SymbolicExpr::Num(m), SymbolicExpr::Num(n)) => make_num(m.checked_add(n)),
        (l, r) => Some(SymbolicExpr::Add(Box::new(l), Box::new(r))),
    }
}

/// One bottom-up pass of simplification. None when a number comes out of range.
pub fn simplify_pass(expr: SymbolicExpr) -> (r: Option<SymbolicExpr>)
    ensures
        r == simplified(expr),
    decreases weight(expr),
{
    proof {
        lemma_simplified_lighter(expr);
    }
    let ghost whole = expr;
    match expr {
        SymbolicExpr::Ln(x) => {
            proof {
                lemma_simplified_lighter(*x);
            }
            let y = match simplify_pass(*x) {
                None => return None,
                Some(y) => y,
            };
            match y {
                SymbolicExpr::Mul(a, b) => {
                    if !a.is_exp() && !b.is_exp() {
                        return Some(make_ln(SymbolicExpr::Mul(a, b)));
                    }
                    let la = SymbolicExpr::Ln(a);
                    let lb = SymbolicExpr::Ln(b);
                    assert(weight(la) < weight(whole) && weight(lb) < weight(whole));
                    proof {
                        lemma_simplified_lighter(la);
                        lemma_simplified_lighter(lb);
                    }
                    let p = match simplify_pass(la) {
                        None => return None,
                        Some(p) => p,
                    };
                    let q = match simplify_pass(lb) {
                        None => return None,
                        Some(q) => q,
                    };
                    let sum = SymbolicExpr::Add(Box::new(p), Box::new(q));
                    assert(weight(sum) < weight(whole));
                    simplify_pass(sum)
                },
                other => Some(make_ln(other)),
            }
        },
        SymbolicExpr::Exp(x) => {
            proof {
                lemma_simplified_lighter(*x);
            }
            let y = match simplify_pass(*x) {
                None => return None,
                Some(y) => y,
            };
            match y {
                SymbolicExpr::Add(a, b) => {
                    let ea = SymbolicExpr::Exp(a);
                    let eb = SymbolicExpr::Exp(b);
                    assert(weight(ea) == 2 * weight(*a) + 1);
                    assert(weight(eb) == 2 * weight(*b) + 1);
                    let product = SymbolicExpr::Mul(Box::new(ea), Box::new(eb));
                    assert(weight(product) < weight(whole));
                    simplify_pass(product)
                },
                other => Some(make_exp(other)),
            }
        },
        SymbolicExpr::Sub(a, b) => {
            proof {
                lemma_simplified_lighter(*a);
                lemma_simplified_lighter(*b);
            }
            let p = match simplify_pass(*a) {
                None => return None,
                Some(p) => p,
            };
            let q = match simplify_pass(*b) {
                None => return None,
                Some(q) => q,
            };
            if matches!(q, SymbolicExpr::Neg(_)) && !p.same(&q) && !p.is_num(0) {
                match q {
                    SymbolicExpr::Neg(inner) => {
                        let sum = SymbolicExpr::Add(Box::new(p), inner);
                        assert(weight(sum) < weight(whole));
                        simplify_pass(sum)
                    },
                    other => make_sub(p, other),
                }
            } else {
                make_sub(p, q)
            }
        },
        SymbolicExpr::Mul(a, b) => {
            let p = match simplify_pass(*a) {
                None => return None,
                Some(p) => p,
            };
            let q = match simplify_pass(*b) {
                None => return None,
                Some(q) => q,
            };
            make_mul(p, q)
        },
        SymbolicExpr::Div(a, b) => {
            let p = match simplify_pass(*a) {
                None => return None,
                Some(p) => p,
            };
            let q = match simplify_pass(*b) {
                None => return None,
                Some(q) => q,
            };
            make_div(p, q)
        },
        SymbolicExpr::Neg(x) => {
            match simplify_pass(*x) {
                None => None,
                Some(y) => make_neg(y),
            }
        },
        SymbolicExpr::Add(a, b) => {
            proof {
                lemma_simplified_lighter(*a);
                lemma_simplified_lighter(*b);
            }
            let p = match simplify_pass(*a) {
                None => return None,
                Some(p) => p,
            };
            let q = match simplify_pass(*b) {
                None => return None,
                Some(q) => q,
            };
            if p.is_num(0) || q.is_num(0) {
                return make_add(p, q);
            }
            match (p, q) {
                (SymbolicExpr::Neg(x), y) => {
                    let turned = SymbolicExpr::Sub(Box::new(y), x);
                    assert(weight(turned) < weight(whole));
                    simplify_pass(turned)
                },
                (x, SymbolicExpr::Neg(y)) => {
                    let turned = SymbolicExpr::Sub(Box::new(x), y);
                    assert(weight(turned) < weight(whole));
                    simplify_pass(turned)
                },
                (l, r) => make_add(l, r),
            }
        },
        other => Some(other),
    }
}

/// How often a value is simplified at most.
pub const MAX_PASSES: u32 = 20;

/// `e` simplified pass after pass until a pass changes nothing, `passes` times at most; none
/// when a number comes out of range.
pub open spec fn reduced(e: SymbolicExpr, passes: nat) -> Option<SymbolicExpr>
    decreases passes,
{
    if passes == 0 {
        Some(e)
    } else {
        match simplified(e) {
            None => None,
            Some(next) => if same_symbol(next, e) {
                Some(e)
            } else {
                reduced(next, (passes - 1) as nat)
            },
        }
    }
}

/// Simplifies until a pass changes nothing, but not more often than `MAX_PASSES` times. None
/// when a number comes out of range.
pub fn reduce_fixed_point(expr: SymbolicExpr) -> (r: Option<SymbolicExpr>)
    ensures
        r == reduced(expr, MAX_PASSES as nat),
{
    let mut current = expr;
    let mut left: u32 = MAX_PASSES;
    while left > 0
        invariant
            reduced(expr, MAX_PASSES as nat) == reduced(current, left as nat),
        decreases left,
    {
        let next = match simplify_pass(current.copy()) {
            None => return None,
            Some(next) => next,
        };
        if next.same(&current) {
            return Some(current);
        }
        current = next;
        left -= 1;
    }
    Some(current)
}

/// Simplification never makes an expression heavier, however often it is repeated.
pub proof fn law_reduction_never_grows(e: SymbolicExpr, passes: nat)
    ensures
        reduced(e, passes) matches Some(r) ==> weight(r) <= weight(e),
    decreases passes,
{
    if passes > 0 {
        lemma_simplified_lighter(e);
        if let Some(next) = simplified(e) {
            law_reduction_never_grows(next, (passes - 1) as nat);
        }
    }
}

/// The value of an expression that is made of whole numbers by addition, subtraction,
/// multiplication and negation alone.
pub open spec fn whole_value(e: SymbolicExpr) -> Option<int>
    decreases e,
{
    match e {
        SymbolicExpr::Num(n) => Some(n as int),
        SymbolicExpr::Add(a, b) => match (whole_value(*a), whole_value(*b)) {
            (Some(m), Some(n)) => Some(m + n),
            _ => None,
        },
        SymbolicExpr::Sub(a, b) => match (whole_value(*a), whole_value(*b)) {
            (Some(m), Some(n)) => Some(m - n),
            _ => None,
        },
        SymbolicExpr::Mul(a, b) => match (whole_value(*a), whole_value(*b)) {
            (Some(m), Some(n)) => Some(m * n),
            _ => None,
        },
        SymbolicExpr::Neg(a) => match whole_value(*a) {
            Some(m) => Some(-m),
            None => None,
        },
        _ => None,
    }
}

proof fn lemma_same_whole(a: SymbolicExpr, b: SymbolicExpr)
    requires
        same_symbol(a, b),
        whole_value(a) is Some,
    ensures
        whole_value(a) == whole_value(b),
    decreases a,
{
    match (a, b) {
        (SymbolicExpr::Add(x, y), SymbolicExpr::Add(u, v)) => {
            lemma_same_whole(*x, *u);
            lemma_same_whole(*y, *v);
        },
        (SymbolicExpr::Sub(x, y), SymbolicExpr::Sub(u, v)) => {
            lemma_same_whole(*x, *u);
            lemma_same_whole(*y, *v);
        },
        (SymbolicExpr::Mul(x, y), SymbolicExpr::Mul(u, v)) => {
            lemma_same_whole(*x, *u);
            lemma_same_whole(*y, *v);
        },
        (SymbolicExpr::Neg(x), SymbolicExpr::Neg(u)) => {
            lemma_same_whole(*x, *u);
        },
        _ => {},
    }
}

proof fn lemma_sub_whole(a: SymbolicExpr, b: SymbolicExpr)
    requires
        whole_value(a) is Some,
        whole_value(b) is Some,
        sub_of(a, b) is Some,
    ensures
        whole_value(sub_of(a, b)->0) == Some(whole_value(a)->0 - whole_value(b)->0),
{
    reveal_with_fuel(whole_value, 2);
    if same_symbol(a, b) {
        lemma_same_whole(a, b);
    }
    match b {
        SymbolicExpr::Sub(x, _) => {
            if same_symbol(a, *x) {
                lemma_same_whole(a, *x);
            }
        },
        SymbolicExpr::Add(x, y) => {
            if same_symbol(a, *x) {
                lemma_same_whole(a, *x);
            }
            if same_symbol(a, *y) {
                lemma_same_whole(a, *y);
            }
        },
        _ => {},
    }
}

proof fn lemma_mul_whole(a: SymbolicExpr, b: SymbolicExpr)
    requires
        whole_value(a) is Some,
        whole_value(b) is Some,
        mul_of(a, b) is Some,
    ensures
        whole_value(mul_of(a, b)->0) == Some(whole_value(a)->0 * whole_value(b)->0),
{
    let (m, n) = (whole_value(a)->0, whole_value(b)->0);
    assert(0 * n == 0 && m * 0 == 0 && 1 * n == n && m * 1 == m) by (nonlinear_arith);
}

proof fn lemma_simplified_whole(e: SymbolicExpr)
    requires
        whole_value(e) is Some,
        simplified(e) is Some,
    ensures
        whole_value(simplified(e)->0) == whole_value(e),
    decreases weight(e),
{
    match e {
        SymbolicExpr::Sub(a, b) => {
            lemma_simplified_whole(*a);
            lemma_simplified_whole(*b);
            let (p, q) = (simplified(*a)->0, simplified(*b)->0);
            if sub_turns(p, q) {
                let sum = SymbolicExpr::Add(Box::new(p), q->Neg_0);
                assert(whole_value(sum) == whole_value(e));
                lemma_simplified_whole(sum);
            } else {
                lemma_sub_whole(p, q);
            }
        },
        SymbolicExpr::Mul(a, b) => {
            lemma_simplified_whole(*a);
            lemma_simplified_whole(*b);
            lemma_mul_whole(simplified(*a)->0, simplified(*b)->0);
        },
        SymbolicExpr::Neg(x) => {
            lemma_simplified_whole(*x);
            let y = simplified(*x)->0;
            assert(whole_value(SymbolicExpr::Neg(Box::new(y))) == whole_value(e));
        },
        SymbolicExpr::Add(a, b) => {
            lemma_simplified_whole(*a);
            lemma_simplified_whole(*b);
            let (p, q) = (simplified(*a)->0, simplified(*b)->0);
            assert(whole_value(SymbolicExpr::Add(Box::new(p), Box::new(q))) == whole_value(e));
            if let Some(turned) = add_turned(p, q) {
                assert(whole_value(turned) == whole_value(e));
                lemma_simplified_whole(turned);
            }
        },
        _ => {},
    }
}

/// Simplification computes with whole numbers exactly: an expression that is made of them by
/// addition, subtraction, multiplication and negation keeps its value.
pub proof fn law_reduction_keeps_whole_numbers(e: SymbolicExpr, passes: nat)
    requires
        whole_value(e) is Some,
        reduced(e, passes) is Some,
    ensures
        whole_value(reduced(e, passes)->0) == whole_value(e),
    decreases passes,
{
    if passes > 0 {
        lemma_simplified_whole(e);
        let next = simplified(e)->0;
        if !same_symbol(next, e) {
            law_reduction_keeps_whole_numbers(next, (passes - 1) as nat);
        }
    }
}

/// The text of a complex constant.
pub open spec fn complex_clean_text(z: Complex64) -> Seq<char> {
    if is_zero(z.re) {
        fixed_text(z.im, 4) + "i"@
    } else if is_zero(z.im) {
        fixed_text(z.re, 4)
    } else {
        fixed_text(z.re, 4) + " + "@ + fixed_text(z.im, 4) + "i"@
    }
}

/// The expression is written as a sum or a difference: it is one, or a complex constant of which
/// no part is zero.
pub open spec fn is_sum(e: SymbolicExpr) -> bool {
    e is Add || e is Sub || (e matches SymbolicExpr::Complex(z) && !is_zero(z.re) && !is_zero(z.im))
}

/// The expression is written with a sign or an operation, none of which binds more strongly than a
/// power.
pub open spec fn is_loose(e: SymbolicExpr) -> bool {
    match e {
        SymbolicExpr::Num(n) => n < 0,
        SymbolicExpr::Float(x) => x >= SIGN_BIT,
        SymbolicExpr::Complex(z) => is_zero(z.re) || !is_zero(z.im) || z.re >= SIGN_BIT,
        SymbolicExpr::E | SymbolicExpr::Pi | SymbolicExpr::I | SymbolicExpr::Ln(_) => false,
        _ => true,
    }
}

/// The expression is the negation of a product or a quotient, perhaps several times over.
pub open spec fn is_negated_product(e: SymbolicExpr) -> bool
    decreases e,
{
    e matches SymbolicExpr::Neg(x) && (*x is Mul || *x is Div || is_negated_product(*x))
}

/// The number of a product of a number and `i`.
pub open spec fn i_factor(a: SymbolicExpr, b: SymbolicExpr) -> Option<i64> {
    match (a, b) {
        (SymbolicExpr::Num(n), SymbolicExpr::I) => Some(n),
        (SymbolicExpr::I, SymbolicExpr::Num(n)) => Some(n),
        _ => None,
    }
}

/// The text of a symbolic expression.
pub open spec fn clean_text(e: SymbolicExpr) -> Seq<char>
    decreases e, 0nat,
{
    match e {
        SymbolicExpr::Num(n) => signed_decimal(n as int),
        SymbolicExpr::Float(x) => fixed_text(x, 4),
        SymbolicExpr::Complex(z) => complex_clean_text(z),
        SymbolicExpr::E => "e"@,
        SymbolicExpr::Pi => "pi"@,
        SymbolicExpr::I => "i"@,
        SymbolicExpr::Inf(p) => if p {
            "+inf"@
        } else {
            "-inf"@
        },
        SymbolicExpr::Neg(x) => if is_sum(*x) {
            "-("@ + clean_text(*x) + ")"@
        } else {
            "-"@ + clean_text(*x)
        },
        SymbolicExpr::Add(a, b) => clean_text(*a) + " + "@ + clean_text(*b),
        SymbolicExpr::Sub(a, b) => clean_text(*a) + " - "@ + operand_text(*b),
        SymbolicExpr::Mul(a, b) => match i_factor(*a, *b) {
            Some(n) => if n == 1 {
                "i"@
            } else if n == -1 {
                "-i"@
            } else {
                signed_decimal(n as int) + "i"@
            },
            None => operand_text(*a) + " * "@ + operand_text(*b),
        },
        SymbolicExpr::Div(a, b) => operand_text(*a) + "/"@ + tight_text(*b),
        SymbolicExpr::Pow(a, b) => base_text(*a) + "^"@ + tight_text(*b),
        SymbolicExpr::Ln(a) => "ln("@ + clean_text(*a) + ")"@,
        SymbolicExpr::Exp(a) => "e^"@ + tight_text(*a),
    }
}

/// The text of an operand: sums, differences, products and quotients stand in brackets.
pub open spec fn operand_text(e: SymbolicExpr) -> Seq<char>
    decreases e, 1nat,
{
    if is_sum(e) || e is Mul || e is Div {
        "("@ + clean_text(e) + ")"@
    } else {
        clean_text(e)
    }
}

/// The text of a divisor or an exponent: a negated product or quotient stands in brackets too.
pub open spec fn tight_text(e: SymbolicExpr) -> Seq<char>
    decreases e, 2nat,
{
    if is_negated_product(e) {
        "("@ + clean_text(e) + ")"@
    } else {
        operand_text(e)
    }
}

/// The text of the base of a power: what binds no more strongly than a power stands in brackets.
pub open spec fn base_text(e: SymbolicExpr) -> Seq<char>
    decreases e, 1nat,
{
    if is_loose(e) {
        "("@ + clean_text(e) + ")"@
    } else {
        clean_text(e)
    }
}

/// What the pieces are that texts are put together from.
proof fn lemma_pieces()
    ensures
        plain_line("i"@) && plain_line("e"@) && plain_line("pi"@) && plain_line("-i"@),
        plain_line("+inf"@) && plain_line("-inf"@),
        plain_line("-"@) && plain_line("-("@) && plain_line("("@) && plain_line(")"@),
        plain_line("ln("@) && plain_line("e^"@),
        one_line(" + "@) && one_line(" - "@) && one_line(" * "@) && one_line("/"@) && one_line(
            "^"@,
        ),
{
    reveal_strlit("i");
    reveal_strlit("e");
    reveal_strlit("pi");
    reveal_strlit("-i");
    reveal_strlit("+inf");
    reveal_strlit("-inf");
    reveal_strlit("-");
    reveal_strlit("-(");
    reveal_strlit("(");
    reveal_strlit(")");
    reveal_strlit("ln(");
    reveal_strlit("e^");
    reveal_strlit(" + ");
    reveal_strlit(" - ");
    reveal_strlit(" * ");
    reveal_strlit("/");
    reveal_strlit("^");
}

impl SymbolicExpr {
    /// The expression as text, with the brackets that the order of operations asks for. It is one
    /// line, and no blank stands at its ends.
    pub fn format_clean(&self) -> (r: String)
        ensures
            r@ == clean_text(*self),
            plain_line(r@),
    {
        let mut out = String::new();
        self.write_clean(&mut out);
        assert(out@ =~= clean_text(*self));
        out
    }

    fn write_clean(&self, out: &mut String)
        ensures
            final(out)@ == old(out)@ + clean_text(*self),
            plain_line(clean_text(*self)),
        decreases *self, 0nat,
    {
        proof {
            lemma_pieces();
        }
        let ghost before = out@;
        match self {
            SymbolicExpr::Num(n) => {
                push_i64(out, *n);
                proof {
                    lemma_signed_solid(*n as int);
                    lemma_solid(signed_decimal(*n as int));
                }
            },
            SymbolicExpr::Float(x) => {
                out.push_str(format_fixed(*x, 4).as_str());
                proof {
                    lemma_solid(fixed_text(*x, 4));
                }
            },
            SymbolicExpr::Complex(z) => {
                let (re, im) = (format_fixed(z.re, 4), format_fixed(z.im, 4));
                proof {
                    lemma_solid(re@);
                    lemma_solid(im@);
                    lemma_joined(im@, Seq::empty(), "i"@);
                    lemma_joined(re@, " + "@, im@ + Seq::empty() + "i"@);
                    assert(im@ + Seq::empty() + "i"@ =~= im@ + "i"@);
                    assert(re@ + " + "@ + (im@ + "i"@) =~= re@ + " + "@ + im@ + "i"@);
                }
                if check_zero(z.re) {
                    out.push_str(im.as_str());
                    out.push_str("i");
                } else if check_zero(z.im) {
                    out.push_str(re.as_str());
                } else {
                    out.push_str(re.as_str());
                    out.push_str(" + ");
                    out.push_str(im.as_str());
                    out.push_str("i");
                }
            },
            SymbolicExpr::E => {
                out.push_str("e");
            },
            SymbolicExpr::Pi => {
                out.push_str("pi");
            },
            SymbolicExpr::I => {
                out.push_str("i");
            },
            SymbolicExpr::Inf(p) => {
                if *p {
                    out.push_str("+inf");
                } else {
                    out.push_str("-inf");
                }
            },
            SymbolicExpr::Neg(x) => {
                if x.check_sum() {
                    out.push_str("-(");
                    x.write_clean(out);
                    out.push_str(")");
                    proof {
                        lemma_joined("-("@, clean_text(**x), ")"@);
                    }
                } else {
                    out.push_str("-");
                    x.write_clean(out);
                    proof {
                        lemma_joined("-"@, Seq::empty(), clean_text(**x));
                        assert("-"@ + Seq::empty() + clean_text(**x) =~= "-"@ + clean_text(**x));
                    }
                }
            },
            SymbolicExpr::Add(a, b) => {
                a.write_clean(out);
                out.push_str(" + ");
                b.write_clean(out);
                proof {
                    lemma_joined(clean_text(**a), " + "@, clean_text(**b));
                }
            },
            SymbolicExpr::Sub(a, b) => {
                a.write_clean(out);
                out.push_str(" - ");
                b.write_operand(out);
                proof {
                    lemma_joined(clean_text(**a), " - "@, operand_text(**b));
                }
            },
            SymbolicExpr::Mul(a, b) => {
                let factor: Option<i64> = match (&**a, &**b) {
                    (SymbolicExpr::Num(n), SymbolicExpr::I) => Some(*n),
                    (SymbolicExpr::I, SymbolicExpr::Num(n)) => Some(*n),
                    _ => None,
                };
                assert(factor == i_factor(**a, **b));
                match factor {
                    Some(n) => {
                        if n == 1 {
                            out.push_str("i");
                        } else if n == -1 {
                            out.push_str("-i");
                        } else {
                            push_i64(out, n);
                            out.push_str("i");
                            proof {
                                let d = signed_decimal(n as int);
                                lemma_signed_solid(n as int);
                                lemma_solid(d);
                                lemma_joined(d, Seq::empty(), "i"@);
                                assert(d + Seq::empty() + "i"@ =~= d + "i"@);
                            }
                        }
                    },
                    None => {
                        a.write_operand(out);
                        out.push_str(" * ");
                        b.write_operand(out);
                        proof {
                            lemma_joined(operand_text(**a), " * "@, operand_text(**b));
                        }
                    },
                }
            },
            SymbolicExpr::Div(a, b) => {
                a.write_operand(out);
                out.push_str("/");
                b.write_tight(out);
                proof {
                    lemma_joined(operand_text(**a), "/"@, tight_text(**b));
                }
            },
            SymbolicExpr::Pow(a, b) => {
                a.write_base(out);
                out.push_str("^");
                b.write_tight(out);
                proof {
                    lemma_joined(base_text(**a), "^"@, tight_text(**b));
                }
            },
            SymbolicExpr::Ln(a) => {
                out.push_str("ln(");
                a.write_clean(out);
                out.push_str(")");
                proof {
                    lemma_joined("ln("@, clean_text(**a), ")"@);
                }
            },
            SymbolicExpr::Exp(a) => {
                out.push_str("e^");
                a.write_tight(out);
                proof {
                    lemma_joined("e^"@, Seq::empty(), tight_text(**a));
                    assert("e^"@ + Seq::empty() + tight_text(**a) =~= "e^"@ + tight_text(**a));
                }
            },
        }
        assert(out@ =~= before + clean_text(*self));
    }

    /// The expression as text, in brackets where an operand needs them.
    pub fn format_parenthesized(&self) -> (r: String)
        ensures
            r@ == operand_text(*self),
    {
        let mut out = String::new();
        self.write_operand(&mut out);
        assert(out@ =~= operand_text(*self));
        out
    }

    fn write_operand(&self, out: &mut String)
        ensures
            final(out)@ == old(out)@ + operand_text(*self),
            plain_line(operand_text(*self)),
        decreases *self, 1nat,
    {
        let ghost before = out@;
        if self.check_sum() || matches!(self, SymbolicExpr::Mul(_, _) | SymbolicExpr::Div(_, _)) {
            out.push_str("(");
            self.write_clean(out);
            out.push_str(")");
            proof {
                lemma_pieces();
                lemma_joined("("@, clean_text(*self), ")"@);
            }
        } else {
            self.write_clean(out);
        }
        assert(out@ =~= before + operand_text(*self));
    }

    fn write_tight(&self, out: &mut String)
        ensures
            final(out)@ == old(out)@ + tight_text(*self),
            plain_line(tight_text(*self)),
        decreases *self, 2nat,
    {
        let ghost before = out@;
        if self.check_negated_product() {
            out.push_str("(");
            self.write_clean(out);
            out.push_str(")");
            proof {
                lemma_pieces();
                lemma_joined("("@, clean_text(*self), ")"@);
            }
        } else {
            self.write_operand(out);
        }
        assert(out@ =~= before + tight_text(*self));
    }

    fn check_negated_product(&self) -> (r: bool)
        ensures
            r == is_negated_product(*self),
        decreases *self,
    {
        match self {
            SymbolicExpr::Neg(x) => matches!(
                **x,
                SymbolicExpr::Mul(_, _) | SymbolicExpr::Div(_, _)
            ) || x.check_negated_product(),
            _ => false,
        }
    }

    fn write_base(&self, out: &mut String)
        ensures
            final(out)@ == old(out)@ + base_text(*self),
            plain_line(base_text(*self)),
        decreases *self, 1nat,
    {
        let ghost before = out@;
        if self.check_loose() {
            out.push_str("(");
            self.write_clean(out);
            out.push_str(")");
            proof {
                lemma_pieces();
                lemma_joined("("@, clean_text(*self), ")"@);
            }
        } else {
            self.write_clean(out);
        }
        assert(out@ =~= before + base_text(*self));
    }

    fn check_sum(&self) -> (r: bool)
        ensures
            r == is_sum(*self),
    {
        match self {
            SymbolicExpr::Add(_, _) | SymbolicExpr::Sub(_, _) => true,
            SymbolicExpr::Complex(z) => !check_zero(z.re) && !check_zero(z.im),
            _ => false,
        }
    }

    fn check_loose(&self) -> (r: bool)
        ensures
            r == is_loose(*self),
    {
        match self {
            SymbolicExpr::Num(n) => *n < 0,
            SymbolicExpr::Float(x) => *x >= SIGN_BIT,
            SymbolicExpr::Complex(z) => check_zero(z.re) || !check_zero(z.im) || z.re >= SIGN_BIT,
            SymbolicExpr::E | SymbolicExpr::Pi | SymbolicExpr::I | SymbolicExpr::Ln(_) => false,
            _ => true,
        }
    }
}

} // verus!
