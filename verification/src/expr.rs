//! Expression trees.

use vstd::prelude::*;

use crate::complex::{may_be_within, Complex64};
use crate::config::MACHINE_TOLERANCE;

verus! {

/// An expression over the free variable and complex constants, with the single binary
/// primitive `f(a, b)`.
#[derive(Debug)]
pub enum Expr {
    Var,
    Const(Complex64),
    Prim(Box<Expr>, Box<Expr>),
}

/// The number of leaves and primitives of an expression.
pub open spec fn ops(e: Expr) -> nat
    decreases e,
{
    match e {
        Expr::Var => 1,
        Expr::Const(_) => 1,
        Expr::Prim(a, b) => 1 + ops(*a) + ops(*b),
    }
}

/// The number of constants of an expression, each counted as often as it occurs.
pub open spec fn constants(e: Expr) -> nat
    decreases e,
{
    match e {
        Expr::Var => 0,
        Expr::Const(_) => 1,
        Expr::Prim(a, b) => constants(*a) + constants(*b),
    }
}

/// The variable does not occur in `e`.
pub open spec fn constant(e: Expr) -> bool
    decreases e,
{
    match e {
        Expr::Var => false,
        Expr::Const(_) => true,
        Expr::Prim(a, b) => constant(*a) && constant(*b),
    }
}

/// `v` is a constant of `e`.
pub open spec fn mentions(e: Expr, v: Complex64) -> bool
    decreases e,
{
    match e {
        Expr::Var => false,
        Expr::Const(c) => c == v,
        Expr::Prim(a, b) => mentions(*a, v) || mentions(*b, v),
    }
}

/// `c` may stand where `v` was written: it is the same value, or the distance test may have
/// found it within the tolerance.
pub open spec fn may_replace(c: Complex64, v: Complex64) -> bool {
    c == v || may_be_within(c, v, MACHINE_TOLERANCE)
}

/// `t` is `e`, but that a constant of `t` may stand for one within the tolerance of it.
pub open spec fn stands_for(t: Expr, e: Expr) -> bool
    decreases e,
{
    match (t, e) {
        (Expr::Var, Expr::Var) => true,
        (Expr::Const(c), Expr::Const(v)) => may_replace(c, v),
        (Expr::Prim(t1, t2), Expr::Prim(e1, e2)) => stands_for(*t1, *e1) && stands_for(*t2, *e2),
        _ => false,
    }
}

/// No two different constants, one of `t` and one of `e`, may be found within the tolerance.
pub open spec fn well_separated(t: Expr, e: Expr) -> bool {
    forall|c: Complex64, v: Complex64| #[trigger]
        mentions(t, c) && #[trigger] mentions(e, v) && may_replace(c, v) ==> c == v
}

/// An expression that stands for another is the same expression when the constants of the two
/// are well separated.
pub proof fn law_separated_constants_are_kept(t: Expr, e: Expr)
    requires
        stands_for(t, e),
        well_separated(t, e),
    ensures
        t == e,
    decreases e,
{
    match (t, e) {
        (Expr::Const(c), Expr::Const(v)) => {
            assert(mentions(t, c) && mentions(e, v));
        },
        (Expr::Prim(t1, t2), Expr::Prim(e1, e2)) => {
            assert forall|c: Complex64, v: Complex64| #[trigger]
                mentions(*t1, c) && #[trigger] mentions(*e1, v) && may_replace(c, v) implies c == v by {
                assert(mentions(t, c) && mentions(e, v));
            }
            assert forall|c: Complex64, v: Complex64| #[trigger]
                mentions(*t2, c) && #[trigger] mentions(*e2, v) && may_replace(c, v) implies c == v by {
                assert(mentions(t, c) && mentions(e, v));
            }
            law_separated_constants_are_kept(*t1, *e1);
            law_separated_constants_are_kept(*t2, *e2);
        },
        _ => {},
    }
}

/// Expressions of which one stands for the other have the same size.
pub proof fn lemma_stands_for_ops(t: Expr, e: Expr)
    requires
        stands_for(t, e),
    ensures
        ops(t) == ops(e),
    decreases e,
{
    match (t, e) {
        (Expr::Prim(t1, t2), Expr::Prim(e1, e2)) => {
            lemma_stands_for_ops(*t1, *e1);
            lemma_stands_for_ops(*t2, *e2);
        },
        _ => {},
    }
}

} // verus!
