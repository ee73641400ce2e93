//! How far simplification goes: what a pass leaves unchanged has nothing left to simplify, and
//! infinities are dealt with as limits are.

use vstd::prelude::*;

use crate::symbolic::{
    add_turned, is_i_pi, lemma_simplified_lighter, ln_splits, reduced, same_symbol, simplified,
    sub_turns, weight, SymbolicExpr, MAX_PASSES,
};

verus! {

/// The logarithm of `y` cannot be taken further.
pub open spec fn no_known_log(y: SymbolicExpr) -> bool {
    match y {
        SymbolicExpr::Num(n) => n != 1 && n != -1 && n != 0,
        SymbolicExpr::E | SymbolicExpr::I | SymbolicExpr::Exp(_) => false,
        SymbolicExpr::Inf(p) => !p,
        SymbolicExpr::Pow(b, _) => *b != SymbolicExpr::E,
        SymbolicExpr::Mul(a, b) => !(*a is Exp) && !(*b is Exp),
        SymbolicExpr::Neg(x) => *x != SymbolicExpr::I,
        _ => true,
    }
}

/// The exponential of `y` cannot be taken further.
pub open spec fn no_known_exp(y: SymbolicExpr) -> bool {
    match y {
        SymbolicExpr::Num(n) => n != 0 && n != 1,
        SymbolicExpr::Ln(_) | SymbolicExpr::Inf(_) | SymbolicExpr::Add(_, _) => false,
        SymbolicExpr::Mul(_, _) => !is_i_pi(y),
        SymbolicExpr::Div(a, b) => !(is_i_pi(*a) && *b == SymbolicExpr::Num(2)),
        _ => true,
    }
}

/// Nothing cancels in the difference of `a` and `b`.
pub open spec fn nothing_cancels(a: SymbolicExpr, b: SymbolicExpr) -> bool {
    &&& !same_symbol(a, b)
    &&& b matches SymbolicExpr::Sub(x, _) ==> !same_symbol(a, *x)
    &&& b matches SymbolicExpr::Add(x, y) ==> !same_symbol(a, *x) && !same_symbol(a, *y)
}

/// There is nothing left to simplify in `e`. Powers are left as they are.
pub open spec fn is_tidy(e: SymbolicExpr) -> bool
    decreases e,
{
    let (zero, one) = (SymbolicExpr::Num(0), SymbolicExpr::Num(1));
    match e {
        SymbolicExpr::Ln(y) => no_known_log(*y) && is_tidy(*y),
        SymbolicExpr::Exp(y) => no_known_exp(*y) && is_tidy(*y),
        SymbolicExpr::Neg(y) => !(*y is Neg) && !(*y is Num) && is_tidy(*y),
        SymbolicExpr::Add(a, b) => {
            &&& *a != zero && *b != zero
            &&& !(*a is Num && *b is Num)
            &&& !(*a is Neg) && !(*b is Neg)
            &&& is_tidy(*a) && is_tidy(*b)
        },
        SymbolicExpr::Sub(a, b) => {
            &&& *a != zero && *b != zero
            &&& !(*a is Num && *b is Num)
            &&& !(*a is Ln && *b is Ln)
            &&& !(*a is Inf) && !(*b is Inf) && !(*b is Neg)
            &&& nothing_cancels(*a, *b)
            &&& is_tidy(*a) && is_tidy(*b)
        },
        SymbolicExpr::Mul(a, b) => {
            &&& *a != zero && *b != zero && *a != one && *b != one
            &&& !(*a is Num && *b is Num)
            &&& is_tidy(*a) && is_tidy(*b)
        },
        SymbolicExpr::Div(a, b) => {
            &&& *a != zero && *b != one
            &&& !same_symbol(*a, *b)
            &&& (*a, *b) matches (SymbolicExpr::Num(m), SymbolicExpr::Num(n)) ==> n == 0 || (m as int)
                % (n as int) != 0
            &&& is_tidy(*a) && is_tidy(*b)
        },
        _ => true,
    }
}

/// Equal expressions are equally heavy.
proof fn lemma_same_weight(a: SymbolicExpr, b: SymbolicExpr)
    requires
        same_symbol(a, b),
    ensures
        weight(a) == weight(b),
    decreases a,
{
    match (a, b) {
        (SymbolicExpr::Add(p, q), SymbolicExpr::Add(c, d)) => {
            lemma_same_weight(*p, *c);
            lemma_same_weight(*q, *d);
        },
        (SymbolicExpr::Sub(p, q), SymbolicExpr::Sub(c, d)) => {
            lemma_same_weight(*p, *c);
            lemma_same_weight(*q, *d);
        },
        (SymbolicExpr::Mul(p, q), SymbolicExpr::Mul(c, d)) => {
            lemma_same_weight(*p, *c);
            lemma_same_weight(*q, *d);
        },
        (SymbolicExpr::Div(p, q), SymbolicExpr::Div(c, d)) => {
            lemma_same_weight(*p, *c);
            lemma_same_weight(*q, *d);
        },
        (SymbolicExpr::Pow(p, q), SymbolicExpr::Pow(c, d)) => {
            lemma_same_weight(*p, *c);
            lemma_same_weight(*q, *d);
        },
        (SymbolicExpr::Ln(p), SymbolicExpr::Ln(c)) => {
            lemma_same_weight(*p, *c);
        },
        (SymbolicExpr::Exp(p), SymbolicExpr::Exp(c)) => {
            lemma_same_weight(*p, *c);
        },
        (SymbolicExpr::Neg(p), SymbolicExpr::Neg(c)) => {
            lemma_same_weight(*p, *c);
        },
        _ => {},
    }
}

/// What a pass leaves unchanged has nothing left to simplify: no logarithm of an exponential and no
/// exponential of a logarithm, nothing that cancels, and no two numbers to be put together.
pub proof fn law_unchanged_is_tidy(e: SymbolicExpr)
    requires
        simplified(e) matches Some(r) && same_symbol(r, e),
    ensures
        is_tidy(simplified(e)->0),
    decreases e,
{
    let r = simplified(e)->0;
    lemma_same_weight(r, e);
    match e {
        SymbolicExpr::Ln(x) => {
            lemma_simplified_lighter(*x);
            let y = simplified(*x)->0;
            if ln_splits(y) {
                let la = SymbolicExpr::Ln(y->Mul_0);
                let lb = SymbolicExpr::Ln(y->Mul_1);
                lemma_simplified_lighter(la);
                lemma_simplified_lighter(lb);
                let (p, q) = (simplified(la)->0, simplified(lb)->0);
                lemma_simplified_lighter(SymbolicExpr::Add(Box::new(p), Box::new(q)));
            } else {
                assert(r == SymbolicExpr::Ln(Box::new(y)));
                law_unchanged_is_tidy(*x);
            }
        },
        SymbolicExpr::Exp(x) => {
            lemma_simplified_lighter(*x);
            let y = simplified(*x)->0;
            if let SymbolicExpr::Add(a, b) = y {
                let (ea, eb) = (SymbolicExpr::Exp(a), SymbolicExpr::Exp(b));
                assert(weight(ea) == 2 * weight(*a) + 1);
                assert(weight(eb) == 2 * weight(*b) + 1);
                lemma_simplified_lighter(SymbolicExpr::Mul(Box::new(ea), Box::new(eb)));
            } else {
                assert(r == SymbolicExpr::Exp(Box::new(y)));
                law_unchanged_is_tidy(*x);
            }
        },
        SymbolicExpr::Sub(a, b) => {
            lemma_simplified_lighter(*a);
            lemma_simplified_lighter(*b);
            let (p, q) = (simplified(*a)->0, simplified(*b)->0);
            if sub_turns(p, q) {
                lemma_simplified_lighter(SymbolicExpr::Add(Box::new(p), q->Neg_0));
            } else {
                assert(r == SymbolicExpr::Sub(Box::new(p), Box::new(q)));
                law_unchanged_is_tidy(*a);
                law_unchanged_is_tidy(*b);
            }
        },
        SymbolicExpr::Mul(a, b) => {
            lemma_simplified_lighter(*a);
            lemma_simplified_lighter(*b);
            let (p, q) = (simplified(*a)->0, simplified(*b)->0);
            assert(r == SymbolicExpr::Mul(Box::new(p), Box::new(q)));
            law_unchanged_is_tidy(*a);
            law_unchanged_is_tidy(*b);
        },
        SymbolicExpr::Div(a, b) => {
            lemma_simplified_lighter(*a);
            lemma_simplified_lighter(*b);
            let (p, q) = (simplified(*a)->0, simplified(*b)->0);
            assert(r == SymbolicExpr::Div(Box::new(p), Box::new(q)));
            law_unchanged_is_tidy(*a);
            law_unchanged_is_tidy(*b);
        },
        SymbolicExpr::Neg(x) => {
            lemma_simplified_lighter(*x);
            let y = simplified(*x)->0;
            assert(r == SymbolicExpr::Neg(Box::new(y)));
            law_unchanged_is_tidy(*x);
        },
        SymbolicExpr::Add(a, b) => {
            lemma_simplified_lighter(*a);
            lemma_simplified_lighter(*b);
            let (p, q) = (simplified(*a)->0, simplified(*b)->0);
            if let Some(turned) = add_turned(p, q) {
                lemma_simplified_lighter(turned);
            } else {
                assert(r == SymbolicExpr::Add(Box::new(p), Box::new(q)));
                law_unchanged_is_tidy(*a);
                law_unchanged_is_tidy(*b);
            }
        },
        _ => {},
    }
}

/// Exponentials and logarithms have their limits at infinity and at zero, whatever an operand was
/// before it was simplified.
pub proof fn law_limits(x: SymbolicExpr)
    ensures
        simplified(x) == Some(SymbolicExpr::Inf(true)) ==> simplified(
            SymbolicExpr::Exp(Box::new(x)),
        ) == Some(SymbolicExpr::Inf(true)),
        simplified(x) == Some(SymbolicExpr::Inf(false)) ==> simplified(
            SymbolicExpr::Exp(Box::new(x)),
        ) == Some(SymbolicExpr::Num(0)),
        simplified(x) == Some(SymbolicExpr::Inf(true)) ==> simplified(
            SymbolicExpr::Ln(Box::new(x)),
        ) == Some(SymbolicExpr::Inf(true)),
        simplified(x) == Some(SymbolicExpr::Num(0)) ==> simplified(SymbolicExpr::Ln(Box::new(x)))
            == Some(SymbolicExpr::Inf(false)),
{
}

/// The difference of something that is not infinite and an infinity is the other infinity, and that
/// of an infinity and something that is not infinite, nor a negation, nor a difference from an
/// infinity, is the infinity.
pub proof fn law_infinite_differences(x: SymbolicExpr, y: SymbolicExpr, positive: bool)
    requires
        simplified(x) matches Some(p) && !(p is Inf) && !(p is Neg) && p != SymbolicExpr::Num(0),
        simplified(y) == Some(SymbolicExpr::Inf(positive)),
    ensures
        simplified(SymbolicExpr::Sub(Box::new(x), Box::new(y))) == Some(
            SymbolicExpr::Inf(!positive),
        ),
        !(simplified(x)->0 matches SymbolicExpr::Sub(u, _) && *u is Inf) ==> simplified(
            SymbolicExpr::Sub(Box::new(y), Box::new(x)),
        ) == Some(SymbolicExpr::Inf(positive)),
{
}

/// Each of `chain` is what a pass makes of the one before it.
pub open spec fn is_chain(chain: Seq<SymbolicExpr>) -> bool {
    forall|i: int|
        #![trigger chain[i]]
        0 < i < chain.len() ==> simplified(chain[i - 1]) == Some(chain[i])
}

/// A pass leaves `e` unchanged.
pub open spec fn is_settled(e: SymbolicExpr) -> bool {
    simplified(e) matches Some(r) && same_symbol(r, e)
}

proof fn lemma_chain(chain: Seq<SymbolicExpr>, passes: nat)
    requires
        0 < chain.len() <= passes,
        is_chain(chain),
        is_settled(chain.last()),
    ensures
        reduced(chain[0], passes) matches Some(r) && is_settled(r),
    decreases chain.len(),
{
    if !is_settled(chain[0]) {
        let rest = chain.skip(1);
        assert(chain.len() > 1);
        assert(rest[0] == chain[1]);
        assert(simplified(chain[1 - 1]) == Some(chain[1]));
        assert forall|i: int|
            #![trigger rest[i]]
            0 < i < rest.len() implies simplified(rest[i - 1]) == Some(rest[i]) by {
            assert(rest[i] == chain[i + 1]);
            assert(rest[i - 1] == chain[i + 1 - 1]);
        }
        assert(rest.last() == chain.last());
        lemma_chain(rest, (passes - 1) as nat);
    }
}

/// Simplification goes on until nothing changes: where that takes twenty passes at most, the last of
/// which changes nothing, another pass leaves the result unchanged, and there is nothing left in it
/// to simplify.
pub proof fn law_reduction_settles(chain: Seq<SymbolicExpr>)
    requires
        0 < chain.len() <= 20,
        is_chain(chain),
        is_settled(chain.last()),
    ensures
        reduced(chain[0], MAX_PASSES as nat) matches Some(r) && is_settled(r) && is_tidy(
            simplified(r)->0,
        ),
{
    lemma_chain(chain, MAX_PASSES as nat);
    law_unchanged_is_tidy(reduced(chain[0], MAX_PASSES as nat)->0);
}

} // verus!
