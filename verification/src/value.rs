//! What symbolic expressions are worth, and that simplification does not change it.
//!
//! Values lie in any field with an exponential: a map from sums to products. The real numbers are
//! one, and so are the complex numbers. A logarithm of `a` is whatever has the exponential `a`, so
//! that an expression may have several values over the complex numbers, where a logarithm is only
//! fixed up to a full turn.

use vstd::prelude::*;

use crate::arena::{arena_ok, node_ok, tree, Node, Op};
use crate::catalog::{const_symbol, prim_symbol, symbol_under};
use crate::complex::{difference, exp_outcome, ln_outcome, prim_outcome, Complex64};
use crate::curve::may_have_value;
use crate::expr::Expr;
use crate::float::{float_eq, is_integral, is_zero, truncated};
use crate::symbolic::{
    add_of, add_turned, div_of, exp_of, half_i_pi, is_i_pi, lemma_simplified_lighter, ln_of,
    ln_splits, mul_of, neg_of, reduced, same_symbol, simplified, sub_of, sub_turns, weight,
    SymbolicExpr, MAX_PASSES,
};

verus! {

/// Numbers with the four operations of arithmetic and an exponential.
#[verifier::reject_recursive_types(V)]
pub struct Numbers<V> {
    /// The whole numbers among them.
    pub whole: spec_fn(int) -> V,
    /// What binary64 numbers, and pairs of them, stand for.
    pub float: spec_fn(u64) -> V,
    pub complex: spec_fn(Complex64) -> V,
    pub e: V,
    pub pi: V,
    /// The imaginary unit, if there is one.
    pub i: Option<V>,
    pub add: spec_fn(V, V) -> V,
    pub sub: spec_fn(V, V) -> V,
    pub mul: spec_fn(V, V) -> V,
    pub div: spec_fn(V, V) -> V,
    pub neg: spec_fn(V) -> V,
    pub exp: spec_fn(V) -> V,
    pub pow: spec_fn(V, V) -> V,
}

impl<V> Numbers<V> {
    pub open spec fn zero(self) -> V {
        (self.whole)(0)
    }

    pub open spec fn one(self) -> V {
        (self.whole)(1)
    }

    /// Something has the exponential `x`.
    pub open spec fn has_log(self, x: V) -> bool {
        exists|y: V| #[trigger] (self.exp)(y) == x
    }
}

pub open spec fn sums_commute<V>(m: Numbers<V>, a: V, b: V) -> bool {
    (m.add)(a, b) == (m.add)(b, a)
}

pub open spec fn sums_associate<V>(m: Numbers<V>, a: V, b: V, c: V) -> bool {
    (m.add)((m.add)(a, b), c) == (m.add)(a, (m.add)(b, c))
}

/// Zero and negation are what they are in sums, and a difference is the sum with the negation.
pub open spec fn sums_cancel<V>(m: Numbers<V>, a: V, b: V) -> bool {
    &&& (m.add)(a, m.zero()) == a
    &&& (m.add)(a, (m.neg)(a)) == m.zero()
    &&& (m.sub)(a, b) == (m.add)(a, (m.neg)(b))
}

pub open spec fn products_commute<V>(m: Numbers<V>, a: V, b: V) -> bool {
    (m.mul)(a, b) == (m.mul)(b, a)
}

pub open spec fn products_associate<V>(m: Numbers<V>, a: V, b: V, c: V) -> bool {
    (m.mul)((m.mul)(a, b), c) == (m.mul)(a, (m.mul)(b, c))
}

pub open spec fn products_distribute<V>(m: Numbers<V>, a: V, b: V, c: V) -> bool {
    (m.mul)(a, (m.add)(b, c)) == (m.add)((m.mul)(a, b), (m.mul)(a, c))
}

/// One is what it is in products, and a quotient is undone by a product.
pub open spec fn products_cancel<V>(m: Numbers<V>, a: V, b: V) -> bool {
    &&& (m.mul)(m.one(), a) == a
    &&& b != m.zero() ==> (m.mul)((m.div)(a, b), b) == a
}

/// A factor that is not zero can be left out on both sides.
pub open spec fn factors_cancel<V>(m: Numbers<V>, a: V, b: V, c: V) -> bool {
    c != m.zero() && (m.mul)(a, c) == (m.mul)(b, c) ==> a == b
}

/// Whole numbers are added, multiplied and negated as such.
pub open spec fn wholes_agree<V>(m: Numbers<V>, a: int, b: int) -> bool {
    &&& (m.add)((m.whole)(a), (m.whole)(b)) == (m.whole)(a + b)
    &&& (m.mul)((m.whole)(a), (m.whole)(b)) == (m.whole)(a * b)
    &&& (m.neg)((m.whole)(a)) == (m.whole)(-a)
}

/// The exponential turns sums into products, is never zero, and powers of `e` are exponentials.
pub open spec fn exp_is_exponential<V>(m: Numbers<V>, a: V, b: V) -> bool {
    &&& (m.exp)((m.add)(a, b)) == (m.mul)((m.exp)(a), (m.exp)(b))
    &&& (m.exp)(a) != m.zero()
    &&& (m.pow)(m.e, a) == (m.exp)(a)
}

/// Equal binary64 numbers stand for the same.
pub open spec fn floats_agree<V>(m: Numbers<V>, x: Complex64, y: Complex64) -> bool {
    &&& float_eq(x.re, y.re) ==> (m.float)(x.re) == (m.float)(y.re)
    &&& float_eq(x.re, y.re) && float_eq(x.im, y.im) ==> (m.complex)(x) == (m.complex)(y)
}

/// A quarter turn is the imaginary unit, a half turn is minus one; without an imaginary unit minus
/// one has no logarithm.
pub open spec fn turns<V>(m: Numbers<V>) -> bool {
    match m.i {
        Some(i) => {
            &&& (m.whole)(2) != m.zero()
            &&& (m.exp)((m.mul)(i, m.pi)) == (m.whole)(-1)
            &&& (m.exp)((m.div)((m.mul)(i, m.pi), (m.whole)(2))) == i
            &&& (m.mul)(i, i) == (m.whole)(-1)
        },
        None => !m.has_log((m.whole)(-1)),
    }
}

/// The laws of arithmetic.
pub open spec fn is_arithmetic<V>(m: Numbers<V>) -> bool {
    &&& forall|a: V, b: V| #[trigger] sums_commute(m, a, b)
    &&& forall|a: V, b: V, c: V| #[trigger] sums_associate(m, a, b, c)
    &&& forall|a: V, b: V| #[trigger] sums_cancel(m, a, b)
    &&& forall|a: V, b: V| #[trigger] products_commute(m, a, b)
    &&& forall|a: V, b: V, c: V| #[trigger] products_associate(m, a, b, c)
    &&& forall|a: V, b: V, c: V| #[trigger] products_distribute(m, a, b, c)
    &&& forall|a: V, b: V| #[trigger] products_cancel(m, a, b)
    &&& forall|a: V, b: V, c: V| #[trigger] factors_cancel(m, a, b, c)
    &&& forall|a: int, b: int| #[trigger] wholes_agree(m, a, b)
}

/// The laws of a field with an exponential.
pub open spec fn is_field<V>(m: Numbers<V>) -> bool {
    &&& is_arithmetic(m)
    &&& forall|a: V, b: V| #[trigger] exp_is_exponential(m, a, b)
    &&& forall|x: Complex64, y: Complex64| #[trigger] floats_agree(m, x, y)
    &&& (m.exp)(m.zero()) == m.one()
    &&& (m.exp)(m.one()) == m.e
    &&& turns(m)
}

/// `v` is a value of `e`. Infinities have none, nor has a quotient by zero.
pub open spec fn is_value<V>(m: Numbers<V>, e: SymbolicExpr, v: V) -> bool
    decreases e,
{
    match e {
        SymbolicExpr::Num(n) => v == (m.whole)(n as int),
        SymbolicExpr::Float(x) => v == (m.float)(x),
        SymbolicExpr::Complex(z) => v == (m.complex)(z),
        SymbolicExpr::E => v == m.e,
        SymbolicExpr::Pi => v == m.pi,
        SymbolicExpr::I => m.i == Some(v),
        SymbolicExpr::Inf(_) => false,
        SymbolicExpr::Add(a, b) => exists|x: V, y: V|
            #![trigger (m.add)(x, y)]
            is_value(m, *a, x) && is_value(m, *b, y) && v == (m.add)(x, y),
        SymbolicExpr::Sub(a, b) => exists|x: V, y: V|
            #![trigger (m.sub)(x, y)]
            is_value(m, *a, x) && is_value(m, *b, y) && v == (m.sub)(x, y),
        SymbolicExpr::Mul(a, b) => exists|x: V, y: V|
            #![trigger (m.mul)(x, y)]
            is_value(m, *a, x) && is_value(m, *b, y) && v == (m.mul)(x, y),
        SymbolicExpr::Div(a, b) => exists|x: V, y: V|
            #![trigger (m.div)(x, y)]
            is_value(m, *a, x) && is_value(m, *b, y) && y != m.zero() && v == (m.div)(x, y),
        SymbolicExpr::Pow(a, b) => exists|x: V, y: V|
            #![trigger (m.pow)(x, y)]
            is_value(m, *a, x) && is_value(m, *b, y) && v == (m.pow)(x, y),
        SymbolicExpr::Ln(a) => is_value(m, *a, (m.exp)(v)),
        SymbolicExpr::Exp(a) => exists|x: V|
            #![trigger (m.exp)(x)]
            is_value(m, *a, x) && v == (m.exp)(x),
        SymbolicExpr::Neg(a) => exists|x: V|
            #![trigger (m.neg)(x)]
            is_value(m, *a, x) && v == (m.neg)(x),
    }
}

/// `e` is made without infinities, no divisor may be zero, and whatever a logarithm is taken of has
/// one.
pub open spec fn is_defined<V>(m: Numbers<V>, e: SymbolicExpr) -> bool
    decreases e,
{
    match e {
        SymbolicExpr::I => m.i is Some,
        SymbolicExpr::Inf(_) => false,
        SymbolicExpr::Add(a, b) => is_defined(m, *a) && is_defined(m, *b),
        SymbolicExpr::Sub(a, b) => is_defined(m, *a) && is_defined(m, *b),
        SymbolicExpr::Mul(a, b) => is_defined(m, *a) && is_defined(m, *b),
        SymbolicExpr::Div(a, b) => is_defined(m, *a) && is_defined(m, *b) && !is_value(
            m,
            *b,
            m.zero(),
        ),
        SymbolicExpr::Pow(a, b) => is_defined(m, *a) && is_defined(m, *b),
        SymbolicExpr::Ln(a) => is_defined(m, *a) && forall|x: V| #[trigger]
            is_value(m, *a, x) ==> m.has_log(x),
        SymbolicExpr::Exp(a) => is_defined(m, *a),
        SymbolicExpr::Neg(a) => is_defined(m, *a),
        _ => true,
    }
}

/// What is defined has a value.
pub proof fn lemma_has_value<V>(m: Numbers<V>, e: SymbolicExpr) -> (v: V)
    requires
        is_defined(m, e),
    ensures
        is_value(m, e, v),
    decreases e,
{
    match e {
        SymbolicExpr::Num(n) => (m.whole)(n as int),
        SymbolicExpr::Float(x) => (m.float)(x),
        SymbolicExpr::Complex(z) => (m.complex)(z),
        SymbolicExpr::E => m.e,
        SymbolicExpr::Pi => m.pi,
        SymbolicExpr::I => m.i->0,
        SymbolicExpr::Inf(_) => m.e,
        SymbolicExpr::Add(a, b) => {
            let (x, y) = (lemma_has_value(m, *a), lemma_has_value(m, *b));
            (m.add)(x, y)
        },
        SymbolicExpr::Sub(a, b) => {
            let (x, y) = (lemma_has_value(m, *a), lemma_has_value(m, *b));
            (m.sub)(x, y)
        },
        SymbolicExpr::Mul(a, b) => {
            let (x, y) = (lemma_has_value(m, *a), lemma_has_value(m, *b));
            (m.mul)(x, y)
        },
        SymbolicExpr::Div(a, b) => {
            let (x, y) = (lemma_has_value(m, *a), lemma_has_value(m, *b));
            (m.div)(x, y)
        },
        SymbolicExpr::Pow(a, b) => {
            let (x, y) = (lemma_has_value(m, *a), lemma_has_value(m, *b));
            (m.pow)(x, y)
        },
        SymbolicExpr::Ln(a) => {
            let x = lemma_has_value(m, *a);
            assert(m.has_log(x));
            choose|y: V| #[trigger] (m.exp)(y) == x
        },
        SymbolicExpr::Exp(a) => {
            let x = lemma_has_value(m, *a);
            (m.exp)(x)
        },
        SymbolicExpr::Neg(a) => {
            let x = lemma_has_value(m, *a);
            (m.neg)(x)
        },
    }
}

/// `r` is defined, and has no values but those of `e`.
pub open spec fn refines<V>(m: Numbers<V>, r: SymbolicExpr, e: SymbolicExpr) -> bool {
    is_defined(m, r) && forall|v: V| #[trigger] is_value(m, r, v) ==> is_value(m, e, v)
}

proof fn lemma_refines_trans<V>(m: Numbers<V>, a: SymbolicExpr, b: SymbolicExpr, c: SymbolicExpr)
    requires
        refines(m, a, b),
        refines(m, b, c),
    ensures
        refines(m, a, c),
{
}

/// The operands of a sum may be replaced by what refines them.
proof fn lemma_refines_add<V>(
    m: Numbers<V>,
    p: SymbolicExpr,
    a: SymbolicExpr,
    q: SymbolicExpr,
    b: SymbolicExpr,
)
    requires
        refines(m, p, a),
        refines(m, q, b),
    ensures
        refines(
            m,
            SymbolicExpr::Add(Box::new(p), Box::new(q)),
            SymbolicExpr::Add(Box::new(a), Box::new(b)),
        ),
{
    let r = SymbolicExpr::Add(Box::new(p), Box::new(q));
    let e = SymbolicExpr::Add(Box::new(a), Box::new(b));
    assert forall|v: V| #[trigger] is_value(m, r, v) implies is_value(m, e, v) by {
        let (x, y) = choose|x: V, y: V|
            #![trigger (m.add)(x, y)]
            is_value(m, p, x) && is_value(m, q, y) && v == (m.add)(x, y);
        assert(is_value(m, a, x) && is_value(m, b, y));
    }
}

/// The operands of a difference may be replaced by what refines them.
proof fn lemma_refines_sub<V>(
    m: Numbers<V>,
    p: SymbolicExpr,
    a: SymbolicExpr,
    q: SymbolicExpr,
    b: SymbolicExpr,
)
    requires
        refines(m, p, a),
        refines(m, q, b),
    ensures
        refines(
            m,
            SymbolicExpr::Sub(Box::new(p), Box::new(q)),
            SymbolicExpr::Sub(Box::new(a), Box::new(b)),
        ),
{
    let r = SymbolicExpr::Sub(Box::new(p), Box::new(q));
    let e = SymbolicExpr::Sub(Box::new(a), Box::new(b));
    assert forall|v: V| #[trigger] is_value(m, r, v) implies is_value(m, e, v) by {
        let (x, y) = choose|x: V, y: V|
            #![trigger (m.sub)(x, y)]
            is_value(m, p, x) && is_value(m, q, y) && v == (m.sub)(x, y);
        assert(is_value(m, a, x) && is_value(m, b, y));
    }
}

/// The operands of a product may be replaced by what refines them.
proof fn lemma_refines_mul<V>(
    m: Numbers<V>,
    p: SymbolicExpr,
    a: SymbolicExpr,
    q: SymbolicExpr,
    b: SymbolicExpr,
)
    requires
        refines(m, p, a),
        refines(m, q, b),
    ensures
        refines(
            m,
            SymbolicExpr::Mul(Box::new(p), Box::new(q)),
            SymbolicExpr::Mul(Box::new(a), Box::new(b)),
        ),
{
    let r = SymbolicExpr::Mul(Box::new(p), Box::new(q));
    let e = SymbolicExpr::Mul(Box::new(a), Box::new(b));
    assert forall|v: V| #[trigger] is_value(m, r, v) implies is_value(m, e, v) by {
        let (x, y) = choose|x: V, y: V|
            #![trigger (m.mul)(x, y)]
            is_value(m, p, x) && is_value(m, q, y) && v == (m.mul)(x, y);
        assert(is_value(m, a, x) && is_value(m, b, y));
    }
}

/// The operands of a quotient may be replaced by what refines them.
proof fn lemma_refines_div<V>(
    m: Numbers<V>,
    p: SymbolicExpr,
    a: SymbolicExpr,
    q: SymbolicExpr,
    b: SymbolicExpr,
)
    requires
        refines(m, p, a),
        refines(m, q, b),
        is_defined(m, SymbolicExpr::Div(Box::new(a), Box::new(b))),
    ensures
        refines(
            m,
            SymbolicExpr::Div(Box::new(p), Box::new(q)),
            SymbolicExpr::Div(Box::new(a), Box::new(b)),
        ),
{
    let r = SymbolicExpr::Div(Box::new(p), Box::new(q));
    let e = SymbolicExpr::Div(Box::new(a), Box::new(b));
    assert forall|v: V| #[trigger] is_value(m, r, v) implies is_value(m, e, v) by {
        let (x, y) = choose|x: V, y: V|
            #![trigger (m.div)(x, y)]
            is_value(m, p, x) && is_value(m, q, y) && y != m.zero() && v == (m.div)(x, y);
        assert(is_value(m, a, x) && is_value(m, b, y));
    }
}

/// The operand of an exponential may be replaced by what refines it.
proof fn lemma_refines_exp<V>(m: Numbers<V>, p: SymbolicExpr, a: SymbolicExpr)
    requires
        refines(m, p, a),
    ensures
        refines(m, SymbolicExpr::Exp(Box::new(p)), SymbolicExpr::Exp(Box::new(a))),
{
    let r = SymbolicExpr::Exp(Box::new(p));
    let e = SymbolicExpr::Exp(Box::new(a));
    assert forall|v: V| #[trigger] is_value(m, r, v) implies is_value(m, e, v) by {
        let x = choose|x: V| #![trigger (m.exp)(x)] is_value(m, p, x) && v == (m.exp)(x);
        assert(is_value(m, a, x));
    }
}

/// The operand of a negation may be replaced by what refines it.
proof fn lemma_refines_neg<V>(m: Numbers<V>, p: SymbolicExpr, a: SymbolicExpr)
    requires
        refines(m, p, a),
    ensures
        refines(m, SymbolicExpr::Neg(Box::new(p)), SymbolicExpr::Neg(Box::new(a))),
{
    let r = SymbolicExpr::Neg(Box::new(p));
    let e = SymbolicExpr::Neg(Box::new(a));
    assert forall|v: V| #[trigger] is_value(m, r, v) implies is_value(m, e, v) by {
        let x = choose|x: V| #![trigger (m.neg)(x)] is_value(m, p, x) && v == (m.neg)(x);
        assert(is_value(m, a, x));
    }
}

/// The operand of a logarithm may be replaced by what refines it.
proof fn lemma_refines_ln<V>(m: Numbers<V>, p: SymbolicExpr, a: SymbolicExpr)
    requires
        refines(m, p, a),
        is_defined(m, SymbolicExpr::Ln(Box::new(a))),
    ensures
        refines(m, SymbolicExpr::Ln(Box::new(p)), SymbolicExpr::Ln(Box::new(a))),
{
    let r = SymbolicExpr::Ln(Box::new(p));
    let e = SymbolicExpr::Ln(Box::new(a));
    assert forall|v: V| #[trigger] is_value(m, r, v) implies is_value(m, e, v) by {
        let w = (m.exp)(v);
        assert(is_value(m, p, w));
        assert(is_value(m, a, w));
    }
    assert forall|x: V| #[trigger] is_value(m, p, x) implies m.has_log(x) by {
        assert(is_value(m, a, x));
    }
}

/// Equal expressions have the same values.
proof fn lemma_same_values<V>(m: Numbers<V>, a: SymbolicExpr, b: SymbolicExpr)
    requires
        is_field(m),
        same_symbol(a, b),
    ensures
        forall|v: V| is_value(m, a, v) ==> is_value(m, b, v),
        forall|v: V| is_value(m, b, v) ==> is_value(m, a, v),
        is_defined(m, a) == is_defined(m, b),
{
    lemma_same_one_way(m, a, b);
    lemma_same_symmetric(a, b);
    lemma_same_one_way(m, b, a);
}

/// Equality goes both ways.
proof fn lemma_same_symmetric(a: SymbolicExpr, b: SymbolicExpr)
    requires
        same_symbol(a, b),
    ensures
        same_symbol(b, a),
    decreases a,
{
    match (a, b) {
        (SymbolicExpr::Add(p, q), SymbolicExpr::Add(c, d)) => {
            lemma_same_symmetric(*p, *c);
            lemma_same_symmetric(*q, *d);
        },
        (SymbolicExpr::Sub(p, q), SymbolicExpr::Sub(c, d)) => {
            lemma_same_symmetric(*p, *c);
            lemma_same_symmetric(*q, *d);
        },
        (SymbolicExpr::Mul(p, q), SymbolicExpr::Mul(c, d)) => {
            lemma_same_symmetric(*p, *c);
            lemma_same_symmetric(*q, *d);
        },
        (SymbolicExpr::Div(p, q), SymbolicExpr::Div(c, d)) => {
            lemma_same_symmetric(*p, *c);
            lemma_same_symmetric(*q, *d);
        },
        (SymbolicExpr::Pow(p, q), SymbolicExpr::Pow(c, d)) => {
            lemma_same_symmetric(*p, *c);
            lemma_same_symmetric(*q, *d);
        },
        (SymbolicExpr::Ln(p), SymbolicExpr::Ln(c)) => {
            lemma_same_symmetric(*p, *c);
        },
        (SymbolicExpr::Exp(p), SymbolicExpr::Exp(c)) => {
            lemma_same_symmetric(*p, *c);
        },
        (SymbolicExpr::Neg(p), SymbolicExpr::Neg(c)) => {
            lemma_same_symmetric(*p, *c);
        },
        _ => {},
    }
}

/// The values of an expression are values of an equal one.
proof fn lemma_same_one_way<V>(m: Numbers<V>, a: SymbolicExpr, b: SymbolicExpr)
    requires
        is_field(m),
        same_symbol(a, b),
    ensures
        forall|v: V| is_value(m, a, v) ==> is_value(m, b, v),
        is_defined(m, b) ==> is_defined(m, a),
    decreases a,
{
    match (a, b) {
        (SymbolicExpr::Float(x), SymbolicExpr::Float(y)) => {
            assert(floats_agree(m, Complex64 { re: x, im: 0 }, Complex64 { re: y, im: 0 }));
        },
        (SymbolicExpr::Complex(x), SymbolicExpr::Complex(y)) => {
            assert(floats_agree(m, x, y));
        },
        (SymbolicExpr::Add(p, q), SymbolicExpr::Add(c, d)) => {
            lemma_same_one_way(m, *p, *c);
            lemma_same_one_way(m, *q, *d);
            assert forall|v: V| is_value(m, a, v) implies is_value(m, b, v) by {
                let (x, y) = choose|x: V, y: V|
                    #![trigger (m.add)(x, y)]
                    is_value(m, *p, x) && is_value(m, *q, y) && v == (m.add)(x, y);
                assert(is_value(m, *c, x) && is_value(m, *d, y));
            }
        },
        (SymbolicExpr::Sub(p, q), SymbolicExpr::Sub(c, d)) => {
            lemma_same_one_way(m, *p, *c);
            lemma_same_one_way(m, *q, *d);
            assert forall|v: V| is_value(m, a, v) implies is_value(m, b, v) by {
                let (x, y) = choose|x: V, y: V|
                    #![trigger (m.sub)(x, y)]
                    is_value(m, *p, x) && is_value(m, *q, y) && v == (m.sub)(x, y);
                assert(is_value(m, *c, x) && is_value(m, *d, y));
            }
        },
        (SymbolicExpr::Mul(p, q), SymbolicExpr::Mul(c, d)) => {
            lemma_same_one_way(m, *p, *c);
            lemma_same_one_way(m, *q, *d);
            assert forall|v: V| is_value(m, a, v) implies is_value(m, b, v) by {
                let (x, y) = choose|x: V, y: V|
                    #![trigger (m.mul)(x, y)]
                    is_value(m, *p, x) && is_value(m, *q, y) && v == (m.mul)(x, y);
                assert(is_value(m, *c, x) && is_value(m, *d, y));
            }
        },
        (SymbolicExpr::Div(p, q), SymbolicExpr::Div(c, d)) => {
            lemma_same_one_way(m, *p, *c);
            lemma_same_one_way(m, *q, *d);
            assert forall|v: V| is_value(m, a, v) implies is_value(m, b, v) by {
                let (x, y) = choose|x: V, y: V|
                    #![trigger (m.div)(x, y)]
                    is_value(m, *p, x) && is_value(m, *q, y) && y != m.zero() && v == (m.div)(x, y);
                assert(is_value(m, *c, x) && is_value(m, *d, y));
            }
        },
        (SymbolicExpr::Pow(p, q), SymbolicExpr::Pow(c, d)) => {
            lemma_same_one_way(m, *p, *c);
            lemma_same_one_way(m, *q, *d);
            assert forall|v: V| is_value(m, a, v) implies is_value(m, b, v) by {
                let (x, y) = choose|x: V, y: V|
                    #![trigger (m.pow)(x, y)]
                    is_value(m, *p, x) && is_value(m, *q, y) && v == (m.pow)(x, y);
                assert(is_value(m, *c, x) && is_value(m, *d, y));
            }
        },
        (SymbolicExpr::Exp(p), SymbolicExpr::Exp(c)) => {
            lemma_same_one_way(m, *p, *c);
            assert forall|v: V| is_value(m, a, v) implies is_value(m, b, v) by {
                let x = choose|x: V|
                    #![trigger (m.exp)(x)]
                    is_value(m, *p, x) && v == (m.exp)(x);
                assert(is_value(m, *c, x));
            }
        },
        (SymbolicExpr::Neg(p), SymbolicExpr::Neg(c)) => {
            lemma_same_one_way(m, *p, *c);
            assert forall|v: V| is_value(m, a, v) implies is_value(m, b, v) by {
                let x = choose|x: V|
                    #![trigger (m.neg)(x)]
                    is_value(m, *p, x) && v == (m.neg)(x);
                assert(is_value(m, *c, x));
            }
        },
        (SymbolicExpr::Ln(p), SymbolicExpr::Ln(c)) => {
            lemma_same_one_way(m, *p, *c);
            assert forall|v: V| is_value(m, a, v) implies is_value(m, b, v) by {
                let w = (m.exp)(v);
                assert(is_value(m, *p, w));
                assert(is_value(m, *c, w));
            }
            if is_defined(m, b) {
                assert forall|x: V| #[trigger] is_value(m, *p, x) implies m.has_log(x) by {
                    assert(is_value(m, *c, x));
                }
            }
        },
        _ => {},
    }
}

/// What follows for sums and differences.
pub proof fn lemma_sums<V>(m: Numbers<V>, a: V, b: V)
    requires
        is_arithmetic(m),
    ensures
        (m.sub)(a, a) == m.zero(),
        (m.sub)(a, m.zero()) == a,
        (m.sub)(m.zero(), a) == (m.neg)(a),
        (m.add)(m.zero(), a) == a,
        (m.add)(a, m.zero()) == a,
        (m.neg)((m.neg)(a)) == a,
        (m.sub)(a, (m.sub)(a, b)) == b,
        (m.sub)(a, (m.add)(a, b)) == (m.neg)(b),
        (m.sub)(a, (m.add)(b, a)) == (m.neg)(b),
        (m.sub)(a, (m.neg)(b)) == (m.add)(a, b),
        (m.add)((m.neg)(b), a) == (m.sub)(a, b),
        (m.add)(a, (m.neg)(b)) == (m.sub)(a, b),
        (m.sub)((m.add)(a, b), b) == a,
{
    let zero = m.zero();
    let (na, nb) = ((m.neg)(a), (m.neg)(b));
    assert(sums_cancel(m, a, a) && sums_cancel(m, a, zero) && sums_cancel(m, zero, a));
    assert(wholes_agree(m, 0, 0));
    assert(sums_commute(m, zero, a) && sums_commute(m, zero, na));
    assert(sums_cancel(m, na, na));
    assert(sums_cancel(m, b, b));
    lemma_opposite(m, a, na);
    lemma_opposite(m, b, nb);
    assert(sums_commute(m, na, a) && sums_commute(m, nb, b) && sums_commute(m, nb, a));
    assert(sums_cancel(m, a, b) && sums_cancel(m, a, nb) && sums_cancel(m, b, b));
    assert(sums_cancel(m, nb, nb) && sums_cancel(m, b, zero));
    // a - (a - b)
    let d = (m.sub)(a, b);
    assert(sums_cancel(m, a, d));
    assert((m.add)(d, (m.add)(na, b)) == zero) by {
        assert(sums_associate(m, a, nb, (m.add)(na, b)));
        assert(sums_commute(m, na, b));
        assert(sums_associate(m, nb, b, na));
        assert(sums_commute(m, zero, na));
        assert(sums_cancel(m, na, a));
    }
    lemma_opposite(m, d, (m.add)(na, b));
    assert(sums_associate(m, a, na, b));
    assert(sums_commute(m, zero, b));
    // a - (a + b)
    let s = (m.add)(a, b);
    assert(sums_cancel(m, a, s));
    assert((m.add)(s, (m.add)(na, nb)) == zero) by {
        assert(sums_commute(m, a, b));
        assert(sums_associate(m, b, a, (m.add)(na, nb)));
        assert(sums_associate(m, a, na, nb));
        assert(sums_commute(m, zero, nb));
        assert(sums_cancel(m, nb, nb));
    }
    lemma_opposite(m, s, (m.add)(na, nb));
    assert(sums_associate(m, a, na, nb));
    assert(sums_commute(m, zero, nb));
    assert(sums_commute(m, b, a));
    // (a + b) - b
    assert(sums_cancel(m, s, b));
    assert(sums_associate(m, a, b, nb));
}

/// What adds up to zero with `a` is its negation.
proof fn lemma_opposite<V>(m: Numbers<V>, a: V, b: V)
    requires
        is_arithmetic(m),
        (m.add)(a, b) == m.zero(),
    ensures
        (m.neg)(a) == b,
        (m.neg)(b) == a,
{
    lemma_opposite_once(m, a, b);
    assert(sums_commute(m, a, b));
    lemma_opposite_once(m, b, a);
}

proof fn lemma_opposite_once<V>(m: Numbers<V>, a: V, b: V)
    requires
        is_arithmetic(m),
        (m.add)(a, b) == m.zero(),
    ensures
        (m.neg)(a) == b,
{
    let n = (m.neg)(a);
    assert(sums_cancel(m, a, a) && sums_cancel(m, n, n) && sums_cancel(m, b, b));
    assert(sums_associate(m, n, a, b));
    assert(sums_commute(m, n, a));
    assert(sums_commute(m, m.zero(), b));
}

/// What follows for products.
pub proof fn lemma_products<V>(m: Numbers<V>, a: V)
    requires
        is_arithmetic(m),
    ensures
        (m.mul)(m.zero(), a) == m.zero(),
        (m.mul)(a, m.zero()) == m.zero(),
        (m.mul)(m.one(), a) == a,
        (m.mul)(a, m.one()) == a,
{
    let zero = m.zero();
    let z = (m.mul)(a, zero);
    assert(products_distribute(m, a, zero, zero));
    assert(wholes_agree(m, 0, 0));
    lemma_sums(m, z, z);
    assert((m.sub)((m.add)(z, z), z) == (m.sub)(z, z));
    assert(products_commute(m, a, zero) && products_commute(m, a, m.one()));
    assert(products_cancel(m, a, a));
}

/// A quotient is what gives the dividend when it is multiplied by the divisor.
pub proof fn lemma_quotient<V>(m: Numbers<V>, a: V, b: V, q: V)
    requires
        is_arithmetic(m),
        b != m.zero(),
        (m.mul)(q, b) == a,
    ensures
        (m.div)(a, b) == q,
{
    assert(products_cancel(m, a, b));
    assert(factors_cancel(m, (m.div)(a, b), q, b));
}

/// What has a logarithm is not zero, and quotients of such numbers have one too.
proof fn lemma_logs<V>(m: Numbers<V>, a: V, b: V)
    requires
        is_field(m),
        m.has_log(a),
        m.has_log(b),
    ensures
        b != m.zero(),
        m.has_log((m.div)(a, b)),
{
    let x = choose|x: V| #[trigger] (m.exp)(x) == a;
    let y = choose|y: V| #[trigger] (m.exp)(y) == b;
    assert(exp_is_exponential(m, y, y));
    let d = (m.sub)(x, y);
    lemma_sums(m, x, y);
    assert(exp_is_exponential(m, d, y));
    assert((m.add)(d, y) == x) by {
        let n = (m.neg)(y);
        assert(sums_cancel(m, x, y) && sums_cancel(m, y, y));
        assert(sums_associate(m, x, n, y));
        assert(sums_commute(m, n, y));
        assert(sums_cancel(m, x, x));
    }
    lemma_quotient(m, a, b, (m.exp)(d));
    assert((m.exp)(d) == (m.div)(a, b));
}

/// The logarithm of what is no product with an exponential in it.
proof fn lemma_ln_refines<V>(m: Numbers<V>, y: SymbolicExpr)
    requires
        is_field(m),
        is_defined(m, SymbolicExpr::Ln(Box::new(y))),
    ensures
        refines(m, ln_of(y), SymbolicExpr::Ln(Box::new(y))),
{
    let e = SymbolicExpr::Ln(Box::new(y));
    let r = ln_of(y);
    reveal_with_fuel(is_value, 4);
    reveal_with_fuel(is_defined, 4);
    match y {
        SymbolicExpr::Num(n) => {
            assert(is_value(m, y, (m.whole)(n as int)));
            assert(m.has_log((m.whole)(n as int)));
            if n == 0 {
                let x = choose|x: V| #[trigger] (m.exp)(x) == m.zero();
                assert(exp_is_exponential(m, x, x));
            }
        },
        SymbolicExpr::Exp(x) => {
            assert forall|v: V| #[trigger] is_value(m, *x, v) implies is_value(m, e, v) by {
                assert(is_value(m, y, (m.exp)(v)));
            }
        },
        SymbolicExpr::Pow(b, x) => {
            if *b == SymbolicExpr::E {
                assert forall|v: V| #[trigger] is_value(m, *x, v) implies is_value(m, e, v) by {
                    assert(exp_is_exponential(m, v, v));
                    assert(is_value(m, *b, m.e));
                    assert(is_value(m, y, (m.pow)(m.e, v)));
                }
            }
        },
        SymbolicExpr::Neg(x) => {
            if *x == SymbolicExpr::I {
                let i = m.i->0;
                let h = (m.div)((m.mul)(i, m.pi), (m.whole)(2));
                lemma_minus_quarter(m);
                assert forall|v: V| #[trigger] is_value(m, r, v) implies is_value(m, e, v) by {
                    assert(is_value(m, half_i_pi(), h));
                    assert(v == (m.neg)(h));
                    assert(is_value(m, *x, i));
                    assert(is_value(m, y, (m.neg)(i)));
                }
            }
        },
        _ => {},
    }
}

/// A quarter turn backwards is minus the imaginary unit.
proof fn lemma_minus_quarter<V>(m: Numbers<V>)
    requires
        is_field(m),
        m.i is Some,
    ensures
        ({
            let i = m.i->0;
            let h = (m.div)((m.mul)(i, m.pi), (m.whole)(2));
            (m.exp)((m.neg)(h)) == (m.neg)(i)
        }),
{
    let i = m.i->0;
    let h = (m.div)((m.mul)(i, m.pi), (m.whole)(2));
    let (nh, ni) = ((m.neg)(h), (m.neg)(i));
    assert(exp_is_exponential(m, nh, h));
    assert(exp_is_exponential(m, h, h));
    assert(sums_cancel(m, h, h) && sums_commute(m, nh, h));
    assert((m.mul)((m.exp)(nh), i) == m.one());
    assert((m.mul)(ni, i) == m.one()) by {
        assert(sums_cancel(m, i, i));
        assert(products_distribute(m, i, i, ni));
        lemma_products(m, i);
        assert(products_commute(m, ni, i));
        let minus = (m.whole)(-1);
        assert(wholes_agree(m, -1, 1) && wholes_agree(m, 1, -1));
        assert((m.add)(minus, (m.mul)(i, ni)) == m.zero());
        lemma_opposite(m, minus, (m.mul)(i, ni));
        assert((m.add)(minus, m.one()) == m.zero());
        lemma_opposite(m, minus, m.one());
    }
    assert(factors_cancel(m, (m.exp)(nh), ni, i));
}

/// The logarithm of a product with an exponential in it is the sum of the logarithms.
proof fn lemma_ln_split_refines<V>(m: Numbers<V>, y: SymbolicExpr)
    requires
        is_field(m),
        is_defined(m, SymbolicExpr::Ln(Box::new(y))),
        ln_splits(y),
    ensures
        refines(
            m,
            SymbolicExpr::Add(
                Box::new(SymbolicExpr::Ln(y->Mul_0)),
                Box::new(SymbolicExpr::Ln(y->Mul_1)),
            ),
            SymbolicExpr::Ln(Box::new(y)),
        ),
{
    let (a, b) = (y->Mul_0, y->Mul_1);
    let (la, lb) = (SymbolicExpr::Ln(a), SymbolicExpr::Ln(b));
    let r = SymbolicExpr::Add(Box::new(la), Box::new(lb));
    let e = SymbolicExpr::Ln(Box::new(y));
    assert forall|x: V, w: V| #[trigger] is_value(m, *a, x) && #[trigger] is_value(m, *b, w) implies
        m.has_log(x) && m.has_log(w) by {
        assert(is_value(m, y, (m.mul)(x, w)));
        assert(m.has_log((m.mul)(x, w)));
        lemma_products_logs(m, *a, x, *b, w);
    }
    assert(is_defined(m, y));
    let x0 = lemma_has_value(m, *a);
    let w0 = lemma_has_value(m, *b);
    assert forall|x: V| #[trigger] is_value(m, *a, x) implies m.has_log(x) by {
        assert(is_value(m, *b, w0));
    }
    assert forall|w: V| #[trigger] is_value(m, *b, w) implies m.has_log(w) by {
        assert(is_value(m, *a, x0));
    }
    assert(is_defined(m, la) && is_defined(m, lb));
    assert forall|v: V| #[trigger] is_value(m, r, v) implies is_value(m, e, v) by {
        let (s, t) = choose|s: V, t: V|
            #![trigger (m.add)(s, t)]
            is_value(m, la, s) && is_value(m, lb, t) && v == (m.add)(s, t);
        assert(exp_is_exponential(m, s, t));
        let (x, w) = ((m.exp)(s), (m.exp)(t));
        assert(is_value(m, *a, x) && is_value(m, *b, w));
        assert(is_value(m, y, (m.mul)(x, w)));
    }
}

/// When a product has a logarithm and one factor is an exponential, both factors have one.
proof fn lemma_products_logs<V>(m: Numbers<V>, a: SymbolicExpr, x: V, b: SymbolicExpr, w: V)
    requires
        is_field(m),
        a is Exp || b is Exp,
        is_value(m, a, x),
        is_value(m, b, w),
        m.has_log((m.mul)(x, w)),
    ensures
        m.has_log(x),
        m.has_log(w),
{
    if a is Exp {
        let s = choose|s: V| #![trigger (m.exp)(s)] is_value(m, *a->Exp_0, s) && x == (m.exp)(s);
        assert(m.has_log(x));
        lemma_logs(m, (m.mul)(x, w), x);
        assert(products_commute(m, x, w));
        lemma_quotient(m, (m.mul)(x, w), x, w);
    } else {
        let s = choose|s: V| #![trigger (m.exp)(s)] is_value(m, *b->Exp_0, s) && w == (m.exp)(s);
        assert(m.has_log(w));
        lemma_logs(m, (m.mul)(x, w), w);
        lemma_quotient(m, (m.mul)(x, w), w, x);
    }
}

/// The exponential of what is no sum.
proof fn lemma_exp_refines<V>(m: Numbers<V>, y: SymbolicExpr)
    requires
        is_field(m),
        is_defined(m, y),
    ensures
        refines(m, exp_of(y), SymbolicExpr::Exp(Box::new(y))),
{
    let e = SymbolicExpr::Exp(Box::new(y));
    reveal_with_fuel(is_value, 4);
    reveal_with_fuel(is_defined, 4);
    match y {
        SymbolicExpr::Num(n) => {
            assert(is_value(m, e, (m.exp)((m.whole)(n as int))));
        },
        SymbolicExpr::Ln(x) => {
            assert forall|v: V| #[trigger] is_value(m, *x, v) implies is_value(m, e, v) by {
                let w = choose|w: V| #[trigger] (m.exp)(w) == v;
                assert(is_value(m, y, w));
            }
        },
        SymbolicExpr::Mul(a, b) => {
            if is_i_pi(y) {
                let i = m.i->0;
                assert(products_commute(m, i, m.pi));
                assert(is_value(m, y, (m.mul)(i, m.pi)));
                assert(is_value(m, e, (m.exp)((m.mul)(i, m.pi))));
            }
        },
        SymbolicExpr::Div(a, b) => {
            if *b == SymbolicExpr::Num(2) && is_i_pi(*a) {
                let i = m.i->0;
                let h = (m.div)((m.mul)(i, m.pi), (m.whole)(2));
                assert(products_commute(m, i, m.pi));
                assert(is_value(m, *a, (m.mul)(i, m.pi)));
                assert(is_value(m, *b, (m.whole)(2)));
                assert(is_value(m, y, h));
                assert(is_value(m, e, (m.exp)(h)));
            }
        },
        _ => {},
    }
}

/// The exponential of a sum is the product of the exponentials.
proof fn lemma_exp_split_refines<V>(m: Numbers<V>, a: SymbolicExpr, b: SymbolicExpr)
    requires
        is_field(m),
        is_defined(m, a),
        is_defined(m, b),
    ensures
        refines(
            m,
            SymbolicExpr::Mul(
                Box::new(SymbolicExpr::Exp(Box::new(a))),
                Box::new(SymbolicExpr::Exp(Box::new(b))),
            ),
            SymbolicExpr::Exp(Box::new(SymbolicExpr::Add(Box::new(a), Box::new(b)))),
        ),
{
    let (ea, eb) = (SymbolicExpr::Exp(Box::new(a)), SymbolicExpr::Exp(Box::new(b)));
    let r = SymbolicExpr::Mul(Box::new(ea), Box::new(eb));
    let sum = SymbolicExpr::Add(Box::new(a), Box::new(b));
    let e = SymbolicExpr::Exp(Box::new(sum));
    assert(is_defined(m, ea) && is_defined(m, eb));
    assert forall|v: V| #[trigger] is_value(m, r, v) implies is_value(m, e, v) by {
        let (s, t) = choose|s: V, t: V|
            #![trigger (m.mul)(s, t)]
            is_value(m, ea, s) && is_value(m, eb, t) && v == (m.mul)(s, t);
        let x = choose|x: V| #![trigger (m.exp)(x)] is_value(m, a, x) && s == (m.exp)(x);
        let y = choose|y: V| #![trigger (m.exp)(y)] is_value(m, b, y) && t == (m.exp)(y);
        assert(exp_is_exponential(m, x, y));
        assert(is_value(m, sum, (m.add)(x, y)));
    }
}

/// Differences that are not turned into sums.
proof fn lemma_sub_refines<V>(m: Numbers<V>, a: SymbolicExpr, b: SymbolicExpr)
    requires
        is_field(m),
        is_defined(m, a),
        is_defined(m, b),
        sub_of(a, b) is Some,
    ensures
        refines(m, sub_of(a, b)->0, SymbolicExpr::Sub(Box::new(a), Box::new(b))),
{
    let e = SymbolicExpr::Sub(Box::new(a), Box::new(b));
    let r = sub_of(a, b)->0;
    let x0 = lemma_has_value(m, a);
    let y0 = lemma_has_value(m, b);
    let zero = m.zero();
    if same_symbol(a, b) {
        lemma_same_values(m, a, b);
        lemma_sums(m, x0, x0);
        assert(is_value(m, e, (m.sub)(x0, x0)));
    } else if b == SymbolicExpr::Num(0) {
        assert forall|v: V| #[trigger] is_value(m, r, v) implies is_value(m, e, v) by {
            lemma_sums(m, v, v);
            assert(is_value(m, b, zero));
            assert(is_value(m, e, (m.sub)(v, zero)));
        }
    } else if a == SymbolicExpr::Num(0) {
        assert(is_value(m, a, zero));
        if let SymbolicExpr::Neg(x) = b {
            assert forall|v: V| #[trigger] is_value(m, r, v) implies is_value(m, e, v) by {
                lemma_sums(m, v, v);
                lemma_sums(m, (m.neg)(v), v);
                assert(is_value(m, b, (m.neg)(v)));
                assert(is_value(m, e, (m.sub)(zero, (m.neg)(v))));
            }
        } else {
            assert(r == SymbolicExpr::Neg(Box::new(b)));
            assert forall|v: V| #[trigger] is_value(m, r, v) implies is_value(m, e, v) by {
                let y = choose|y: V| #![trigger (m.neg)(y)] is_value(m, b, y) && v == (m.neg)(y);
                lemma_sums(m, y, y);
                assert(is_value(m, e, (m.sub)(zero, y)));
            }
        }
    } else {
        match (a, b) {
            (SymbolicExpr::Num(p), SymbolicExpr::Num(q)) => {
                let (x, y) = ((m.whole)(p as int), (m.whole)(q as int));
                assert(is_value(m, a, x) && is_value(m, b, y));
                assert(sums_cancel(m, x, y));
                assert(wholes_agree(m, q as int, 0) && wholes_agree(m, p as int, -(q as int)));
                assert(is_value(m, e, (m.sub)(x, y)));
            },
            (SymbolicExpr::Ln(p), SymbolicExpr::Ln(q)) => {
                lemma_ln_difference(m, *p, *q);
            },
            (_, SymbolicExpr::Sub(p, q)) => {
                if same_symbol(a, *p) {
                    lemma_same_values(m, a, *p);
                    assert forall|v: V| #[trigger] is_value(m, r, v) implies is_value(m, e, v) by {
                        lemma_sums(m, x0, v);
                        assert(is_value(m, *p, x0));
                        assert(is_value(m, b, (m.sub)(x0, v)));
                        assert(is_value(m, e, (m.sub)(x0, (m.sub)(x0, v))));
                    }
                }
            },
            (_, SymbolicExpr::Add(p, q)) => {
                if same_symbol(a, *p) {
                    lemma_same_values(m, a, *p);
                    assert forall|v: V| #[trigger] is_value(m, r, v) implies is_value(m, e, v) by {
                        let y = choose|y: V|
                            #![trigger (m.neg)(y)]
                            is_value(m, *q, y) && v == (m.neg)(y);
                        lemma_sums(m, x0, y);
                        assert(is_value(m, *p, x0));
                        assert(is_value(m, b, (m.add)(x0, y)));
                        assert(is_value(m, e, (m.sub)(x0, (m.add)(x0, y))));
                    }
                } else if same_symbol(a, *q) {
                    lemma_same_values(m, a, *q);
                    assert forall|v: V| #[trigger] is_value(m, r, v) implies is_value(m, e, v) by {
                        let y = choose|y: V|
                            #![trigger (m.neg)(y)]
                            is_value(m, *p, y) && v == (m.neg)(y);
                        lemma_sums(m, x0, y);
                        assert(is_value(m, *q, x0));
                        assert(is_value(m, b, (m.add)(y, x0)));
                        assert(is_value(m, e, (m.sub)(x0, (m.add)(y, x0))));
                    }
                }
            },
            _ => {},
        }
    }
}

/// The difference of logarithms is the logarithm of the quotient.
proof fn lemma_ln_difference<V>(m: Numbers<V>, p: SymbolicExpr, q: SymbolicExpr)
    requires
        is_field(m),
        is_defined(m, SymbolicExpr::Ln(Box::new(p))),
        is_defined(m, SymbolicExpr::Ln(Box::new(q))),
    ensures
        refines(
            m,
            SymbolicExpr::Ln(Box::new(SymbolicExpr::Div(Box::new(p), Box::new(q)))),
            SymbolicExpr::Sub(
                Box::new(SymbolicExpr::Ln(Box::new(p))),
                Box::new(SymbolicExpr::Ln(Box::new(q))),
            ),
        ),
{
    let (lp, lq) = (SymbolicExpr::Ln(Box::new(p)), SymbolicExpr::Ln(Box::new(q)));
    let d = SymbolicExpr::Div(Box::new(p), Box::new(q));
    let r = SymbolicExpr::Ln(Box::new(d));
    let e = SymbolicExpr::Sub(Box::new(lp), Box::new(lq));
    if is_value(m, q, m.zero()) {
        let x = choose|x: V| #[trigger] (m.exp)(x) == m.zero();
        assert(exp_is_exponential(m, x, x));
    }
    assert(is_defined(m, d));
    assert forall|v: V| #[trigger] is_value(m, d, v) implies m.has_log(v) by {
        let (x, y) = choose|x: V, y: V|
            #![trigger (m.div)(x, y)]
            is_value(m, p, x) && is_value(m, q, y) && y != m.zero() && v == (m.div)(x, y);
        lemma_logs(m, x, y);
    }
    assert forall|v: V| #[trigger] is_value(m, r, v) implies is_value(m, e, v) by {
        let w = (m.exp)(v);
        assert(is_value(m, d, w));
        let (x, y) = choose|x: V, y: V|
            #![trigger (m.div)(x, y)]
            is_value(m, p, x) && is_value(m, q, y) && y != m.zero() && w == (m.div)(x, y);
        assert(m.has_log(y));
        let t = choose|t: V| #[trigger] (m.exp)(t) == y;
        let s = (m.add)(v, t);
        assert(exp_is_exponential(m, v, t));
        assert(products_cancel(m, x, y));
        assert((m.exp)(s) == x);
        assert(is_value(m, lp, s) && is_value(m, lq, t));
        lemma_sums(m, v, t);
        assert(is_value(m, e, (m.sub)(s, t)));
    }
}

proof fn lemma_mul_refines<V>(m: Numbers<V>, a: SymbolicExpr, b: SymbolicExpr)
    requires
        is_field(m),
        is_defined(m, a),
        is_defined(m, b),
        mul_of(a, b) is Some,
    ensures
        refines(m, mul_of(a, b)->0, SymbolicExpr::Mul(Box::new(a), Box::new(b))),
{
    let e = SymbolicExpr::Mul(Box::new(a), Box::new(b));
    let r = mul_of(a, b)->0;
    let x0 = lemma_has_value(m, a);
    let y0 = lemma_has_value(m, b);
    lemma_products(m, x0);
    lemma_products(m, y0);
    if a == SymbolicExpr::Num(0) || b == SymbolicExpr::Num(0) {
        assert(is_value(m, e, (m.mul)(x0, y0)));
    } else if a == SymbolicExpr::Num(1) {
        assert forall|v: V| #[trigger] is_value(m, r, v) implies is_value(m, e, v) by {
            lemma_products(m, v);
            assert(is_value(m, e, (m.mul)(x0, v)));
        }
    } else if b == SymbolicExpr::Num(1) {
        assert forall|v: V| #[trigger] is_value(m, r, v) implies is_value(m, e, v) by {
            lemma_products(m, v);
            assert(is_value(m, e, (m.mul)(v, y0)));
        }
    } else if let (SymbolicExpr::Num(p), SymbolicExpr::Num(q)) = (a, b) {
        assert(wholes_agree(m, p as int, q as int));
        assert(is_value(m, e, (m.mul)(x0, y0)));
    }
}

proof fn lemma_div_refines<V>(m: Numbers<V>, a: SymbolicExpr, b: SymbolicExpr)
    requires
        is_field(m),
        is_defined(m, SymbolicExpr::Div(Box::new(a), Box::new(b))),
        div_of(a, b) is Some,
    ensures
        refines(m, div_of(a, b)->0, SymbolicExpr::Div(Box::new(a), Box::new(b))),
{
    let e = SymbolicExpr::Div(Box::new(a), Box::new(b));
    let r = div_of(a, b)->0;
    let x0 = lemma_has_value(m, a);
    let y0 = lemma_has_value(m, b);
    if same_symbol(a, b) {
        lemma_same_values(m, a, b);
        lemma_products(m, y0);
        lemma_quotient(m, y0, y0, m.one());
        assert(is_value(m, e, (m.div)(y0, y0)));
    } else if b == SymbolicExpr::Num(1) {
        assert forall|v: V| #[trigger] is_value(m, r, v) implies is_value(m, e, v) by {
            lemma_products(m, v);
            lemma_quotient(m, v, y0, v);
            assert(is_value(m, e, (m.div)(v, y0)));
        }
    } else if a == SymbolicExpr::Num(0) {
        lemma_products(m, y0);
        lemma_quotient(m, x0, y0, m.zero());
        assert(is_value(m, e, (m.div)(x0, y0)));
    } else if let (SymbolicExpr::Num(p), SymbolicExpr::Num(q)) = (a, b) {
        if q != 0 && (p as int) % (q as int) == 0 {
            let t = (p as int) / (q as int);
            assert(t * q == p) by (nonlinear_arith)
                requires
                    q != 0,
                    (p as int) % (q as int) == 0,
                    t == (p as int) / (q as int),
            ;
            assert(wholes_agree(m, t, q as int));
            lemma_quotient(m, x0, y0, (m.whole)(t));
            assert(is_value(m, e, (m.div)(x0, y0)));
        }
    }
}

proof fn lemma_neg_refines<V>(m: Numbers<V>, y: SymbolicExpr)
    requires
        is_field(m),
        is_defined(m, y),
        neg_of(y) is Some,
    ensures
        refines(m, neg_of(y)->0, SymbolicExpr::Neg(Box::new(y))),
{
    let e = SymbolicExpr::Neg(Box::new(y));
    let r = neg_of(y)->0;
    match y {
        SymbolicExpr::Neg(x) => {
            assert forall|v: V| #[trigger] is_value(m, r, v) implies is_value(m, e, v) by {
                lemma_sums(m, v, v);
                assert(is_value(m, y, (m.neg)(v)));
                assert(is_value(m, e, (m.neg)((m.neg)(v))));
            }
        },
        SymbolicExpr::Num(n) => {
            let x = (m.whole)(n as int);
            assert(wholes_agree(m, n as int, 0));
            assert(is_value(m, y, x));
            assert(is_value(m, e, (m.neg)(x)));
        },
        _ => {},
    }
}

proof fn lemma_add_refines<V>(m: Numbers<V>, a: SymbolicExpr, b: SymbolicExpr)
    requires
        is_field(m),
        is_defined(m, a),
        is_defined(m, b),
    ensures
        ({
            let e = SymbolicExpr::Add(Box::new(a), Box::new(b));
            &&& add_of(a, b) matches Some(r) ==> refines(m, r, e)
            &&& add_turned(a, b) matches Some(r) ==> refines(m, r, e)
        }),
{
    let e = SymbolicExpr::Add(Box::new(a), Box::new(b));
    let x0 = lemma_has_value(m, a);
    let y0 = lemma_has_value(m, b);
    if a == SymbolicExpr::Num(0) {
        assert forall|v: V| #[trigger] is_value(m, b, v) implies is_value(m, e, v) by {
            lemma_sums(m, v, v);
            assert(is_value(m, e, (m.add)(x0, v)));
        }
    } else if b == SymbolicExpr::Num(0) {
        assert forall|v: V| #[trigger] is_value(m, a, v) implies is_value(m, e, v) by {
            lemma_sums(m, v, v);
            assert(is_value(m, e, (m.add)(v, y0)));
        }
    } else {
        if let (SymbolicExpr::Num(p), SymbolicExpr::Num(q)) = (a, b) {
            assert(wholes_agree(m, p as int, q as int));
            assert(is_value(m, e, (m.add)(x0, y0)));
        }
        if let SymbolicExpr::Neg(x) = a {
            let r = SymbolicExpr::Sub(Box::new(b), x);
            assert forall|v: V| #[trigger] is_value(m, r, v) implies is_value(m, e, v) by {
                let (s, t) = choose|s: V, t: V|
                    #![trigger (m.sub)(s, t)]
                    is_value(m, b, s) && is_value(m, *x, t) && v == (m.sub)(s, t);
                lemma_sums(m, s, t);
                assert(is_value(m, a, (m.neg)(t)));
                assert(is_value(m, e, (m.add)((m.neg)(t), s)));
            }
            assert(refines(m, r, e));
        } else if let SymbolicExpr::Neg(y) = b {
            let r = SymbolicExpr::Sub(Box::new(a), y);
            assert forall|v: V| #[trigger] is_value(m, r, v) implies is_value(m, e, v) by {
                let (s, t) = choose|s: V, t: V|
                    #![trigger (m.sub)(s, t)]
                    is_value(m, a, s) && is_value(m, *y, t) && v == (m.sub)(s, t);
                lemma_sums(m, s, t);
                assert(is_value(m, b, (m.neg)(t)));
                assert(is_value(m, e, (m.add)(s, (m.neg)(t))));
            }
            assert(refines(m, r, e));
        }
    }
}

/// The difference with a negation is a sum.
proof fn lemma_sub_turned_refines<V>(m: Numbers<V>, a: SymbolicExpr, x: SymbolicExpr)
    requires
        is_field(m),
        is_defined(m, a),
        is_defined(m, x),
    ensures
        refines(
            m,
            SymbolicExpr::Add(Box::new(a), Box::new(x)),
            SymbolicExpr::Sub(Box::new(a), Box::new(SymbolicExpr::Neg(Box::new(x)))),
        ),
{
    let b = SymbolicExpr::Neg(Box::new(x));
    let e = SymbolicExpr::Sub(Box::new(a), Box::new(b));
    let r = SymbolicExpr::Add(Box::new(a), Box::new(x));
    assert forall|v: V| #[trigger] is_value(m, r, v) implies is_value(m, e, v) by {
        let (s, t) = choose|s: V, t: V|
            #![trigger (m.add)(s, t)]
            is_value(m, a, s) && is_value(m, x, t) && v == (m.add)(s, t);
        lemma_sums(m, s, t);
        assert(is_value(m, b, (m.neg)(t)));
        assert(is_value(m, e, (m.sub)(s, (m.neg)(t))));
    }
}

/// A pass of simplification refines.
proof fn lemma_simplified_refines<V>(m: Numbers<V>, e: SymbolicExpr)
    requires
        is_field(m),
        is_defined(m, e),
        simplified(e) is Some,
    ensures
        refines(m, simplified(e)->0, e),
    decreases weight(e),
{
    let r = simplified(e)->0;
    lemma_simplified_lighter(e);
    match e {
        SymbolicExpr::Ln(x) => {
            lemma_simplified_refines(m, *x);
            lemma_simplified_lighter(*x);
            let y = simplified(*x)->0;
            let ly = SymbolicExpr::Ln(Box::new(y));
            lemma_refines_ln(m, y, *x);
            if ln_splits(y) {
                let la = SymbolicExpr::Ln(y->Mul_0);
                let lb = SymbolicExpr::Ln(y->Mul_1);
                lemma_ln_split_refines(m, y);
                lemma_simplified_refines(m, la);
                lemma_simplified_refines(m, lb);
                let (p, q) = (simplified(la)->0, simplified(lb)->0);
                let split = SymbolicExpr::Add(Box::new(la), Box::new(lb));
                let sum = SymbolicExpr::Add(Box::new(p), Box::new(q));
                lemma_refines_add(m, p, la, q, lb);
                lemma_simplified_refines(m, sum);
                lemma_refines_trans(m, r, sum, split);
                lemma_refines_trans(m, r, split, ly);
            } else {
                lemma_ln_refines(m, y);
            }
            lemma_refines_trans(m, r, ly, e);
        },
        SymbolicExpr::Exp(x) => {
            lemma_simplified_refines(m, *x);
            let y = simplified(*x)->0;
            let ey = SymbolicExpr::Exp(Box::new(y));
            lemma_refines_exp(m, y, *x);
            if let SymbolicExpr::Add(a, b) = y {
                let product = SymbolicExpr::Mul(
                    Box::new(SymbolicExpr::Exp(a)),
                    Box::new(SymbolicExpr::Exp(b)),
                );
                lemma_exp_split_refines(m, *a, *b);
                lemma_simplified_refines(m, product);
                lemma_refines_trans(m, r, product, ey);
            } else {
                lemma_exp_refines(m, y);
            }
            lemma_refines_trans(m, r, ey, e);
        },
        SymbolicExpr::Sub(a, b) => {
            lemma_simplified_refines(m, *a);
            lemma_simplified_refines(m, *b);
            let (p, q) = (simplified(*a)->0, simplified(*b)->0);
            let d = SymbolicExpr::Sub(Box::new(p), Box::new(q));
            lemma_refines_sub(m, p, *a, q, *b);
            if sub_turns(p, q) {
                let sum = SymbolicExpr::Add(Box::new(p), q->Neg_0);
                lemma_sub_turned_refines(m, p, *q->Neg_0);
                lemma_simplified_refines(m, sum);
                lemma_refines_trans(m, r, sum, d);
            } else {
                lemma_sub_refines(m, p, q);
            }
            lemma_refines_trans(m, r, d, e);
        },
        SymbolicExpr::Mul(a, b) => {
            lemma_simplified_refines(m, *a);
            lemma_simplified_refines(m, *b);
            let (p, q) = (simplified(*a)->0, simplified(*b)->0);
            lemma_refines_mul(m, p, *a, q, *b);
            lemma_mul_refines(m, p, q);
            lemma_refines_trans(m, r, SymbolicExpr::Mul(Box::new(p), Box::new(q)), e);
        },
        SymbolicExpr::Div(a, b) => {
            lemma_simplified_refines(m, *a);
            lemma_simplified_refines(m, *b);
            let (p, q) = (simplified(*a)->0, simplified(*b)->0);
            lemma_refines_div(m, p, *a, q, *b);
            lemma_div_refines(m, p, q);
            lemma_refines_trans(m, r, SymbolicExpr::Div(Box::new(p), Box::new(q)), e);
        },
        SymbolicExpr::Neg(x) => {
            lemma_simplified_refines(m, *x);
            let y = simplified(*x)->0;
            lemma_refines_neg(m, y, *x);
            lemma_neg_refines(m, y);
            lemma_refines_trans(m, r, SymbolicExpr::Neg(Box::new(y)), e);
        },
        SymbolicExpr::Add(a, b) => {
            lemma_simplified_refines(m, *a);
            lemma_simplified_refines(m, *b);
            let (p, q) = (simplified(*a)->0, simplified(*b)->0);
            let sum = SymbolicExpr::Add(Box::new(p), Box::new(q));
            lemma_refines_add(m, p, *a, q, *b);
            lemma_add_refines(m, p, q);
            if let Some(turned) = add_turned(p, q) {
                lemma_simplified_refines(m, turned);
                lemma_refines_trans(m, r, turned, sum);
            }
            lemma_refines_trans(m, r, sum, e);
        },
        _ => {},
    }
}

/// Simplification keeps what an expression is worth, in any field with an exponential: the outcome
/// has a value, and every value that it has is one that the expression has. Divisors are not zero,
/// and what logarithms are taken of has one.
pub proof fn law_reduction_keeps_value<V>(m: Numbers<V>, e: SymbolicExpr, passes: nat)
    requires
        is_field(m),
        is_defined(m, e),
        reduced(e, passes) is Some,
    ensures
        is_defined(m, reduced(e, passes)->0),
        exists|v: V| #[trigger] is_value(m, reduced(e, passes)->0, v),
        forall|v: V| #[trigger]
            is_value(m, reduced(e, passes)->0, v) ==> is_value(m, e, v),
    decreases passes,
{
    if passes > 0 {
        lemma_simplified_refines(m, e);
        let next = simplified(e)->0;
        if !same_symbol(next, e) {
            law_reduction_keeps_value(m, next, (passes - 1) as nat);
        }
    }
    let v = lemma_has_value(m, reduced(e, passes)->0);
}

/// No two numbers have the same exponential, as it is with the real numbers.
pub open spec fn exp_is_injective<V>(m: Numbers<V>) -> bool {
    forall|a: V, b: V| #[trigger] (m.exp)(a) == #[trigger] (m.exp)(b) ==> a == b
}

/// Where no two numbers have the same exponential, an expression has one value at most.
pub proof fn law_value_is_unique<V>(m: Numbers<V>, e: SymbolicExpr, v: V, w: V)
    requires
        exp_is_injective(m),
        is_value(m, e, v),
        is_value(m, e, w),
    ensures
        v == w,
    decreases e,
{
    match e {
        SymbolicExpr::Add(a, b) => {
            let (x, y) = choose|x: V, y: V|
                #![trigger (m.add)(x, y)]
                is_value(m, *a, x) && is_value(m, *b, y) && v == (m.add)(x, y);
            let (s, t) = choose|x: V, y: V|
                #![trigger (m.add)(x, y)]
                is_value(m, *a, x) && is_value(m, *b, y) && w == (m.add)(x, y);
            law_value_is_unique(m, *a, x, s);
            law_value_is_unique(m, *b, y, t);
        },
        SymbolicExpr::Sub(a, b) => {
            let (x, y) = choose|x: V, y: V|
                #![trigger (m.sub)(x, y)]
                is_value(m, *a, x) && is_value(m, *b, y) && v == (m.sub)(x, y);
            let (s, t) = choose|x: V, y: V|
                #![trigger (m.sub)(x, y)]
                is_value(m, *a, x) && is_value(m, *b, y) && w == (m.sub)(x, y);
            law_value_is_unique(m, *a, x, s);
            law_value_is_unique(m, *b, y, t);
        },
        SymbolicExpr::Mul(a, b) => {
            let (x, y) = choose|x: V, y: V|
                #![trigger (m.mul)(x, y)]
                is_value(m, *a, x) && is_value(m, *b, y) && v == (m.mul)(x, y);
            let (s, t) = choose|x: V, y: V|
                #![trigger (m.mul)(x, y)]
                is_value(m, *a, x) && is_value(m, *b, y) && w == (m.mul)(x, y);
            law_value_is_unique(m, *a, x, s);
            law_value_is_unique(m, *b, y, t);
        },
        SymbolicExpr::Div(a, b) => {
            let (x, y) = choose|x: V, y: V|
                #![trigger (m.div)(x, y)]
                is_value(m, *a, x) && is_value(m, *b, y) && y != m.zero() && v == (m.div)(x, y);
            let (s, t) = choose|x: V, y: V|
                #![trigger (m.div)(x, y)]
                is_value(m, *a, x) && is_value(m, *b, y) && y != m.zero() && w == (m.div)(x, y);
            law_value_is_unique(m, *a, x, s);
            law_value_is_unique(m, *b, y, t);
        },
        SymbolicExpr::Pow(a, b) => {
            let (x, y) = choose|x: V, y: V|
                #![trigger (m.pow)(x, y)]
                is_value(m, *a, x) && is_value(m, *b, y) && v == (m.pow)(x, y);
            let (s, t) = choose|x: V, y: V|
                #![trigger (m.pow)(x, y)]
                is_value(m, *a, x) && is_value(m, *b, y) && w == (m.pow)(x, y);
            law_value_is_unique(m, *a, x, s);
            law_value_is_unique(m, *b, y, t);
        },
        SymbolicExpr::Ln(a) => {
            let (x, y) = ((m.exp)(v), (m.exp)(w));
            assert(is_value(m, *a, x) && is_value(m, *a, y));
            law_value_is_unique(m, *a, x, y);
        },
        SymbolicExpr::Exp(a) => {
            let x = choose|x: V| #![trigger (m.exp)(x)] is_value(m, *a, x) && v == (m.exp)(x);
            let y = choose|y: V| #![trigger (m.exp)(y)] is_value(m, *a, y) && w == (m.exp)(y);
            law_value_is_unique(m, *a, x, y);
        },
        SymbolicExpr::Neg(a) => {
            let x = choose|x: V| #![trigger (m.neg)(x)] is_value(m, *a, x) && v == (m.neg)(x);
            let y = choose|y: V| #![trigger (m.neg)(y)] is_value(m, *a, y) && w == (m.neg)(y);
            law_value_is_unique(m, *a, x, y);
        },
        _ => {},
    }
}

/// Over numbers no two of which have the same exponential, such as the real ones, simplification
/// keeps the value of an expression.
pub proof fn law_reduction_keeps_only_value<V>(m: Numbers<V>, e: SymbolicExpr, passes: nat, v: V)
    requires
        is_field(m),
        exp_is_injective(m),
        is_defined(m, e),
        is_value(m, e, v),
        reduced(e, passes) is Some,
    ensures
        is_value(m, reduced(e, passes)->0, v),
{
    law_reduction_keeps_value(m, e, passes);
    let r = reduced(e, passes)->0;
    let w = choose|w: V| #[trigger] is_value(m, r, w);
    law_value_is_unique(m, e, v, w);
}

/// `v` is a value of an expression over `f(a, b) = exp(a) - ln(b)` when the variable is worth `at`. One
/// with the variable in it has none when the variable is worth nothing.
pub open spec fn is_expr_value<V>(m: Numbers<V>, t: Expr, at: Option<V>, v: V) -> bool
    decreases t,
{
    match t {
        Expr::Var => at == Some(v),
        Expr::Const(c) => v == (m.complex)(c),
        Expr::Prim(a, b) => exists|x: V, y: V|
            #![trigger (m.exp)(x), (m.exp)(y)]
            is_expr_value(m, *a, at, x) && is_expr_value(m, *b, at, (m.exp)(y)) && v == (m.sub)(
                (m.exp)(x),
                y,
            ),
    }
}

/// The variable does not occur, the constants can be held as what they are read as, and whatever a
/// logarithm is taken of has one.
pub open spec fn is_expr_defined<V>(m: Numbers<V>, t: Expr) -> bool
    decreases t,
{
    match t {
        Expr::Var => false,
        Expr::Const(c) => is_zero(c.im) && is_integral(c.re) ==> i64::MIN < truncated(c.re)
            < i64::MAX,
        Expr::Prim(a, b) => is_expr_defined(m, *a) && is_expr_defined(m, *b) && forall|y: V|
            #[trigger]
            is_expr_value(m, *b, None, y) ==> m.has_log(y),
    }
}

/// A pair without an imaginary part is its real part, and a number without a fraction is the whole
/// number that it is.
pub open spec fn parts_agree<V>(m: Numbers<V>, c: Complex64) -> bool {
    &&& is_zero(c.im) ==> (m.complex)(c) == (m.float)(c.re)
    &&& is_integral(c.re) && i64::MIN < truncated(c.re) < i64::MAX ==> (m.float)(c.re) == (m.whole)(
        truncated(c.re),
    )
}

/// `s` is defined, and has no values but those of `t`.
pub open spec fn interprets<V>(m: Numbers<V>, s: SymbolicExpr, t: Expr) -> bool {
    is_defined(m, s) && forall|v: V| #[trigger] is_value(m, s, v) ==> is_expr_value(m, t, None, v)
}

/// The symbol of an expression over `f(a, b) = exp(a) - ln(b)` is worth what the expression is, when
/// the symbols already known are: it has a value, and every value that it has is one of the
/// expression.
pub proof fn law_symbol_keeps_value<V>(
    m: Numbers<V>,
    nodes: Seq<Node>,
    known: Map<u32, SymbolicExpr>,
    id: u32,
)
    requires
        is_field(m),
        forall|c: Complex64| #[trigger] parts_agree(m, c),
        arena_ok(nodes),
        id < nodes.len(),
        is_expr_defined(m, tree(nodes, id as int)),
        forall|k: u32| #[trigger]
            known.contains_key(k) && is_expr_defined(m, tree(nodes, k as int)) ==> interprets(
                m,
                known[k],
                tree(nodes, k as int),
            ),
        symbol_under(nodes, known, id) is Some,
    ensures
        interprets(m, symbol_under(nodes, known, id)->0, tree(nodes, id as int)),
        exists|v: V| #[trigger] is_value(m, symbol_under(nodes, known, id)->0, v),
    decreases id,
{
    let n = nodes[id as int];
    let t = tree(nodes, id as int);
    let s = symbol_under(nodes, known, id)->0;
    assert(node_ok(nodes, id as int));
    if !known.contains_key(id) {
        if n.op == Op::Const {
            let c = n.const_val->0;
            assert(parts_agree(m, c));
            law_reduction_keeps_value(m, const_symbol(c), MAX_PASSES as nat);
        } else if n.op == Op::Prim {
            law_symbol_keeps_value(m, nodes, known, n.a);
            law_symbol_keeps_value(m, nodes, known, n.b);
            let a = symbol_under(nodes, known, n.a)->0;
            let b = symbol_under(nodes, known, n.b)->0;
            let (ta, tb) = (tree(nodes, n.a as int), tree(nodes, n.b as int));
            let (ea, lb) = (SymbolicExpr::Exp(Box::new(a)), SymbolicExpr::Ln(Box::new(b)));
            let e = prim_symbol(a, b);
            assert(e == SymbolicExpr::Sub(Box::new(ea), Box::new(lb)));
            assert forall|y: V| #[trigger] is_value(m, b, y) implies m.has_log(y) by {
                assert(is_expr_value(m, tb, None, y));
            }
            assert(is_defined(m, ea) && is_defined(m, lb));
            assert(is_defined(m, e));
            assert forall|v: V| #[trigger] is_value(m, e, v) implies is_expr_value(m, t, None, v) by {
                let (u, y) = choose|u: V, y: V|
                    #![trigger (m.sub)(u, y)]
                    is_value(m, ea, u) && is_value(m, lb, y) && v == (m.sub)(u, y);
                let x = choose|x: V| #![trigger (m.exp)(x)] is_value(m, a, x) && u == (m.exp)(x);
                let w = (m.exp)(y);
                assert(is_value(m, b, w));
                assert(is_expr_value(m, ta, None, x) && is_expr_value(m, tb, None, w));
            }
            law_reduction_keeps_value(m, e, MAX_PASSES as nat);
        }
    }
    let v = lemma_has_value(m, s);
}

/// What the machine gives for the primitive on `p` and `q` is exact at every step, when a pair of
/// binary64 numbers is worth what `complex` says.
pub open spec fn primitive_exact<V>(m: Numbers<V>, p: Complex64, q: Complex64) -> bool {
    &&& forall|y: Complex64| #[trigger]
        exp_outcome(p, y) ==> (m.complex)(y) == (m.exp)((m.complex)(p))
    &&& forall|z: Complex64| #[trigger]
        ln_outcome(q, z) ==> (m.exp)((m.complex)(z)) == (m.complex)(q)
    &&& forall|y: Complex64, z: Complex64, d: Complex64|
        exp_outcome(p, y) && ln_outcome(q, z) && #[trigger] difference(y, z, d) ==> (m.complex)(d)
            == (m.sub)((m.complex)(y), (m.complex)(z))
}

/// What the machine gives on the way to the value of an expression is exact.
pub open spec fn evaluation_exact<V>(m: Numbers<V>, t: Expr, x: u64) -> bool
    decreases t,
{
    match t {
        Expr::Prim(a, b) => {
            &&& evaluation_exact(m, *a, x)
            &&& evaluation_exact(m, *b, x)
            &&& forall|p: Complex64, q: Complex64| #[trigger]
                may_have_value(*a, x, p) && #[trigger] may_have_value(*b, x, q) ==> primitive_exact(
                    m,
                    p,
                    q,
                )
        },
        _ => true,
    }
}

/// The primitive is the exponential of its first operand less a logarithm of its second, and the
/// value of an expression is put together from it, where the machine is exact on the way.
pub proof fn law_machine_value<V>(m: Numbers<V>, t: Expr, x: u64, r: Complex64)
    requires
        evaluation_exact(m, t, x),
        may_have_value(t, x, r),
    ensures
        is_expr_value(m, t, Some((m.complex)(Complex64 { re: x, im: 0 })), (m.complex)(r)),
    decreases t,
{
    if let Expr::Prim(a, b) = t {
        let at = Some((m.complex)(Complex64 { re: x, im: 0 }));
        let (p, q) = choose|p: Complex64, q: Complex64|
            may_have_value(*a, x, p) && may_have_value(*b, x, q) && #[trigger] prim_outcome(p, q, r);
        law_machine_value(m, *a, x, p);
        law_machine_value(m, *b, x, q);
        assert(primitive_exact(m, p, q));
        let (y, z) = choose|y: Complex64, z: Complex64|
            #![trigger exp_outcome(p, y), ln_outcome(q, z)]
            exp_outcome(p, y) && ln_outcome(q, z) && difference(y, z, r);
        let (u, w) = ((m.complex)(p), (m.complex)(z));
        assert(is_expr_value(m, *a, at, u) && is_expr_value(m, *b, at, (m.exp)(w)));
        assert((m.complex)(r) == (m.sub)((m.exp)(u), w));
    }
}

} // verus!
