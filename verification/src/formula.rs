//! What the texts of symbolic expressions say to a reader who knows the order of operations, and
//! that it is what the expressions are worth.

use vstd::prelude::*;

use crate::catalog::{negligible, number_text};
use crate::complex::Complex64;
use crate::float::{fixed_text, is_zero, SIGN_BIT};
use crate::roundtrip::{holds, lemma_held, lemma_holds_part};
use crate::symbolic::{
    base_text, clean_text, i_factor, is_loose, is_negated_product, is_sum, operand_text,
    tight_text, SymbolicExpr,
};
use crate::text::{at, decimal, is_digit, lemma_decimal_value};
use crate::value::{
    is_arithmetic, lemma_products, lemma_sums, products_associate, products_commute,
    products_distribute, sums_associate, sums_cancel, sums_commute, wholes_agree, Numbers,
};

verus! {

/// What the signs of a formula stand for.
#[verifier::reject_recursive_types(V)]
pub struct Script<V> {
    pub numbers: Numbers<V>,
    /// What digits, perhaps with a point among them, stand for.
    pub numeral: spec_fn(Seq<char>) -> V,
    pub i: V,
    pub inf: V,
    pub ln: spec_fn(V) -> V,
    /// What a quotient by a number multiplies with.
    pub inverse: spec_fn(V) -> V,
}

pub open spec fn quotients_multiply<V>(r: Script<V>, a: V, b: V) -> bool {
    (r.numbers.div)(a, b) == (r.numbers.mul)(a, (r.inverse)(b))
}

pub open spec fn numerals_count<V>(r: Script<V>, n: nat) -> bool {
    (r.numeral)(decimal(n)) == (r.numbers.whole)(n as int)
}

pub open spec fn powers_of_e<V>(r: Script<V>, a: V) -> bool {
    (r.numbers.pow)(r.numbers.e, a) == (r.numbers.exp)(a)
}

/// The operations obey the laws of arithmetic, decimal digits stand for the number they write, and
/// powers of `e` are exponentials.
pub open spec fn is_script<V>(r: Script<V>) -> bool {
    &&& is_arithmetic(r.numbers)
    &&& forall|a: V, b: V| #[trigger] quotients_multiply(r, a, b)
    &&& forall|n: nat| #[trigger] numerals_count(r, n)
    &&& forall|a: V| #[trigger] powers_of_e(r, a)
}

/// A sign with a blank on either side.
pub open spec fn spaced_sign(s: Seq<char>, p: int, c: char) -> bool {
    at(s, p, ' ') && at(s, p + 1, c) && at(s, p + 2, ' ')
}

pub open spec fn is_numeral_char(c: char) -> bool {
    is_digit(c) || c == '.'
}

/// The first place from `p` on that holds neither a digit nor a point.
pub open spec fn numeral_end(s: Seq<char>, p: int) -> int
    decreases s.len() - p,
{
    if 0 <= p < s.len() && is_numeral_char(s[p]) {
        numeral_end(s, p + 1)
    } else {
        p
    }
}

/// Reads terms, with plus or minus signs between them.
pub open spec fn read_sum<V>(r: Script<V>, s: Seq<char>, p: int) -> Option<(V, int)>
    decreases s.len() - p, 5nat,
{
    match read_product(r, s, p) {
        Some((v, q)) => if p < q <= s.len() {
            sum_rest(r, s, v, q)
        } else {
            None
        },
        None => None,
    }
}

/// Goes on with a sum that has come to `v`: the terms are taken from left to right.
pub open spec fn sum_rest<V>(r: Script<V>, s: Seq<char>, v: V, p: int) -> Option<(V, int)>
    decreases s.len() - p, 4nat,
{
    if spaced_sign(s, p, '+') {
        sum_after(r, s, v, true, p + 3)
    } else if spaced_sign(s, p, '-') {
        sum_after(r, s, v, false, p + 3)
    } else {
        Some((v, p))
    }
}

/// Goes on with a sum behind a sign.
pub open spec fn sum_after<V>(r: Script<V>, s: Seq<char>, v: V, plus: bool, p: int) -> Option<
    (V, int),
>
    decreases s.len() - p, 5nat,
{
    match read_product(r, s, p) {
        Some((t, q)) => if p < q <= s.len() {
            if plus {
                sum_rest(r, s, (r.numbers.add)(v, t), q)
            } else {
                sum_rest(r, s, (r.numbers.sub)(v, t), q)
            }
        } else {
            None
        },
        None => None,
    }
}

/// Reads factors, with multiplication or division signs between them.
pub open spec fn read_product<V>(r: Script<V>, s: Seq<char>, p: int) -> Option<(V, int)>
    decreases s.len() - p, 3nat,
{
    match read_factor(r, s, p) {
        Some((v, q)) => if p < q <= s.len() {
            product_rest(r, s, v, q)
        } else {
            None
        },
        None => None,
    }
}

/// Goes on with a product that has come to `v`: the factors are taken from left to right.
pub open spec fn product_rest<V>(r: Script<V>, s: Seq<char>, v: V, p: int) -> Option<(V, int)>
    decreases s.len() - p, 2nat,
{
    if spaced_sign(s, p, '*') {
        product_after(r, s, v, true, p + 3)
    } else if at(s, p, '/') {
        product_after(r, s, v, false, p + 1)
    } else {
        Some((v, p))
    }
}

/// Goes on with a product behind a sign.
pub open spec fn product_after<V>(r: Script<V>, s: Seq<char>, v: V, times: bool, p: int) -> Option<
    (V, int),
>
    decreases s.len() - p, 3nat,
{
    match read_factor(r, s, p) {
        Some((t, q)) => if p < q <= s.len() {
            if times {
                product_rest(r, s, (r.numbers.mul)(v, t), q)
            } else {
                product_rest(r, s, (r.numbers.div)(v, t), q)
            }
        } else {
            None
        },
        None => None,
    }
}

/// Reads a factor: a power, perhaps behind signs. Powers bind more strongly than signs, and the
/// exponent is read first.
pub open spec fn read_factor<V>(r: Script<V>, s: Seq<char>, p: int) -> Option<(V, int)>
    decreases s.len() - p, 1nat,
{
    if at(s, p, '-') {
        match read_factor(r, s, p + 1) {
            Some((v, q)) => Some(((r.numbers.neg)(v), q)),
            None => None,
        }
    } else if at(s, p, '+') {
        read_factor(r, s, p + 1)
    } else {
        match read_atom(r, s, p) {
            Some((b, q)) => if !at(s, q, '^') {
                Some((b, q))
            } else if p < q {
                match read_factor(r, s, q + 1) {
                    Some((x, z)) => Some(((r.numbers.pow)(b, x), z)),
                    None => None,
                }
            } else {
                None
            },
            None => None,
        }
    }
}

/// Reads a number, a constant, a logarithm, or what stands in brackets.
pub open spec fn read_atom<V>(r: Script<V>, s: Seq<char>, p: int) -> Option<(V, int)>
    decreases s.len() - p, 0nat,
{
    if at(s, p, '(') {
        match read_sum(r, s, p + 1) {
            Some((v, q)) => if at(s, q, ')') {
                Some((v, q + 1))
            } else {
                None
            },
            None => None,
        }
    } else if at(s, p, 'l') && at(s, p + 1, 'n') && at(s, p + 2, '(') {
        match read_sum(r, s, p + 3) {
            Some((v, q)) => if at(s, q, ')') {
                Some(((r.ln)(v), q + 1))
            } else {
                None
            },
            None => None,
        }
    } else if 0 <= p < s.len() && is_digit(s[p]) {
        let q = numeral_end(s, p);
        let v = (r.numeral)(s.subrange(p, q));
        if at(s, q, 'i') {
            Some(((r.numbers.mul)(v, r.i), q + 1))
        } else {
            Some((v, q))
        }
    } else if at(s, p, 'p') && at(s, p + 1, 'i') {
        Some((r.numbers.pi, p + 2))
    } else if at(s, p, 'e') {
        Some((r.numbers.e, p + 1))
    } else if at(s, p, 'i') && at(s, p + 1, 'n') && at(s, p + 2, 'f') {
        Some((r.inf, p + 3))
    } else if at(s, p, 'i') {
        Some((r.i, p + 1))
    } else {
        None
    }
}

/// The text is digits, perhaps with points among them.
pub open spec fn is_numeral(t: Seq<char>) -> bool {
    &&& t.len() > 0
    &&& is_digit(t[0])
    &&& forall|k: int| 0 <= k < t.len() ==> is_numeral_char(#[trigger] t[k])
}

/// The text of the number is a numeral, behind a minus sign where the number carries one. So it is
/// for every number but the infinities and those that are none.
pub open spec fn is_finite_text(x: u64, places: usize) -> bool {
    let t = fixed_text(x, places);
    if x >= SIGN_BIT {
        t.len() > 0 && t[0] == '-' && is_numeral(t.skip(1))
    } else {
        is_numeral(t)
    }
}

/// The number that is written for `x`.
pub open spec fn rounded<V>(r: Script<V>, x: u64, places: usize) -> V {
    let t = fixed_text(x, places);
    if x >= SIGN_BIT {
        (r.numbers.neg)((r.numeral)(t.skip(1)))
    } else {
        (r.numeral)(t)
    }
}

/// The numbers in `e` are finite.
pub open spec fn is_finite_expr(e: SymbolicExpr) -> bool
    decreases e,
{
    match e {
        SymbolicExpr::Float(x) => is_finite_text(x, 4),
        SymbolicExpr::Complex(z) => is_finite_text(z.re, 4) && is_finite_text(z.im, 4),
        SymbolicExpr::Add(a, b) => is_finite_expr(*a) && is_finite_expr(*b),
        SymbolicExpr::Sub(a, b) => is_finite_expr(*a) && is_finite_expr(*b),
        SymbolicExpr::Mul(a, b) => is_finite_expr(*a) && is_finite_expr(*b),
        SymbolicExpr::Div(a, b) => is_finite_expr(*a) && is_finite_expr(*b),
        SymbolicExpr::Pow(a, b) => is_finite_expr(*a) && is_finite_expr(*b),
        SymbolicExpr::Ln(a) => is_finite_expr(*a),
        SymbolicExpr::Exp(a) => is_finite_expr(*a),
        SymbolicExpr::Neg(a) => is_finite_expr(*a),
        _ => true,
    }
}

/// What `e` is worth, each of its numbers rounded to the digits that are written.
pub open spec fn worth<V>(r: Script<V>, e: SymbolicExpr) -> V
    decreases e,
{
    let m = r.numbers;
    match e {
        SymbolicExpr::Num(n) => (m.whole)(n as int),
        SymbolicExpr::Float(x) => rounded(r, x, 4),
        SymbolicExpr::Complex(z) => if is_zero(z.re) {
            (m.mul)(rounded(r, z.im, 4), r.i)
        } else if is_zero(z.im) {
            rounded(r, z.re, 4)
        } else {
            (m.add)(rounded(r, z.re, 4), (m.mul)(rounded(r, z.im, 4), r.i))
        },
        SymbolicExpr::E => m.e,
        SymbolicExpr::Pi => m.pi,
        SymbolicExpr::I => r.i,
        SymbolicExpr::Inf(positive) => if positive {
            r.inf
        } else {
            (m.neg)(r.inf)
        },
        SymbolicExpr::Add(a, b) => (m.add)(worth(r, *a), worth(r, *b)),
        SymbolicExpr::Sub(a, b) => (m.sub)(worth(r, *a), worth(r, *b)),
        SymbolicExpr::Mul(a, b) => (m.mul)(worth(r, *a), worth(r, *b)),
        SymbolicExpr::Div(a, b) => (m.div)(worth(r, *a), worth(r, *b)),
        SymbolicExpr::Pow(a, b) => (m.pow)(worth(r, *a), worth(r, *b)),
        SymbolicExpr::Ln(a) => (r.ln)(worth(r, *a)),
        SymbolicExpr::Exp(a) => (m.exp)(worth(r, *a)),
        SymbolicExpr::Neg(a) => (m.neg)(worth(r, *a)),
    }
}

/// A factor may end here: nothing follows that would belong to it.
spec fn factor_ends(s: Seq<char>, q: int) -> bool {
    0 <= q <= s.len() && (q < s.len() ==> s[q] == ' ' || s[q] == ')' || s[q] == '/')
}

/// A term may end here.
spec fn term_ends(s: Seq<char>, q: int) -> bool {
    &&& factor_ends(s, q)
    &&& !at(s, q, '/')
    &&& !spaced_sign(s, q, '*')
}

/// A numeral is read to its end.
proof fn lemma_numeral_end(s: Seq<char>, p: int, t: Seq<char>, k: int)
    requires
        holds(s, p, t),
        0 <= k <= t.len(),
        forall|j: int| 0 <= j < t.len() ==> is_numeral_char(#[trigger] t[j]),
        p + t.len() == s.len() || !is_numeral_char(s[p + t.len()]),
    ensures
        numeral_end(s, p + k) == p + t.len(),
    decreases t.len() - k,
{
    if k < t.len() {
        assert(s[p + k] == t[k]);
        lemma_numeral_end(s, p, t, k + 1);
    }
}

/// A numeral stands for itself.
proof fn lemma_numeral<V>(r: Script<V>, s: Seq<char>, p: int, t: Seq<char>)
    requires
        holds(s, p, t),
        is_numeral(t),
        p + t.len() == s.len() || !is_numeral_char(s[p + t.len()]),
    ensures
        ({
            let q = p + t.len();
            read_atom(r, s, p) == if at(s, q, 'i') {
                Some(((r.numbers.mul)((r.numeral)(t), r.i), q + 1))
            } else {
                Some(((r.numeral)(t), q))
            }
        }),
{
    assert(s[p + 0] == t[0]);
    lemma_numeral_end(s, p, t, 0);
    lemma_held(s, p, t);
}

/// Decimal digits are a numeral.
proof fn lemma_decimal_numeral(n: nat)
    ensures
        is_numeral(decimal(n)),
{
    lemma_decimal_value(n);
}

/// What stands in front of a part, and the part.
proof fn lemma_holds_two(s: Seq<char>, p: int, a: Seq<char>, b: Seq<char>)
    requires
        holds(s, p, a + b),
    ensures
        holds(s, p, a),
        holds(s, p + a.len(), b),
{
    assert(a + b + Seq::<char>::empty() =~= a + b);
    lemma_holds_part(s, p, a, b, Seq::empty());
}

/// A sign turned round in a product.
proof fn lemma_signs<V>(m: Numbers<V>, c: V, v: V)
    requires
        is_arithmetic(m),
    ensures
        (m.mul)(c, (m.neg)(v)) == (m.mul)((m.neg)(c), v),
        (m.mul)((m.neg)(c), v) == (m.neg)((m.mul)(c, v)),
{
    let w = (m.mul)(c, v);
    let x = (m.mul)(c, (m.neg)(v));
    let y = (m.mul)((m.neg)(c), v);
    assert(products_distribute(m, c, v, (m.neg)(v)));
    assert(sums_cancel(m, v, v) && sums_cancel(m, c, c));
    lemma_products(m, c);
    lemma_products(m, v);
    assert((m.add)(w, x) == m.zero());
    assert(products_commute(m, c, v) && products_commute(m, (m.neg)(c), v));
    assert(products_distribute(m, v, c, (m.neg)(c)));
    assert((m.add)(w, y) == m.zero());
    lemma_opposite(m, w, x);
    lemma_opposite(m, w, y);
}

/// What gives zero when it is added is the negation.
proof fn lemma_opposite<V>(m: Numbers<V>, w: V, x: V)
    requires
        is_arithmetic(m),
        (m.add)(w, x) == m.zero(),
    ensures
        x == (m.neg)(w),
{
    lemma_sums(m, x, w);
    lemma_sums(m, w, w);
    assert(sums_commute(m, w, x));
    assert((m.sub)((m.add)(x, w), w) == x);
}

/// A number that carries a sign, perhaps times `i`.
proof fn lemma_rounded<V>(r: Script<V>, s: Seq<char>, p: int, x: u64, places: usize)
    requires
        is_script(r),
        is_finite_text(x, places),
        holds(s, p, fixed_text(x, places)),
        ({
            let q = p + fixed_text(x, places).len();
            q == s.len() || !is_numeral_char(s[q])
        }),
    ensures
        ({
            let q = p + fixed_text(x, places).len();
            let v = rounded(r, x, places);
            let w = (r.numbers.mul)(v, r.i);
            &&& p < q <= s.len()
            &&& at(s, q, 'i') && factor_ends(s, q + 1) ==> read_factor(r, s, p) == Some((w, q + 1))
            &&& factor_ends(s, q) ==> read_factor(r, s, p) == Some((v, q))
            &&& x < SIGN_BIT && (factor_ends(s, q) || at(s, q, '^')) ==> read_atom(r, s, p) == Some(
                (v, q),
            )
        }),
{
    let t = fixed_text(x, places);
    assert(s[p + 0] == t[0]);
    if x >= SIGN_BIT {
        let d = t.skip(1);
        assert(holds(s, p + 1, d)) by {
            assert forall|k: int| 0 <= k < d.len() implies #[trigger] s[p + 1 + k] == d[k] by {
                assert(s[p + (1 + k)] == t[1 + k]);
            }
        }
        lemma_numeral(r, s, p + 1, d);
        lemma_signs(r.numbers, (r.numeral)(d), r.i);
        assert(s[p + 1 + 0] == d[0]);
    } else {
        lemma_numeral(r, s, p, t);
    }
}

/// What needs no brackets as the base of a power is read as one thing.
proof fn lemma_atom<V>(r: Script<V>, s: Seq<char>, p: int, e: SymbolicExpr)
    requires
        is_script(r),
        is_finite_expr(e),
        !is_loose(e),
        holds(s, p, clean_text(e)),
        ({
            let q = p + clean_text(e).len();
            factor_ends(s, q) || at(s, q, '^')
        }),
    ensures
        ({
            let q = p + clean_text(e).len();
            &&& p < q <= s.len()
            &&& read_atom(r, s, p) == Some((worth(r, e), q))
            &&& !at(s, p, '-') && !at(s, p, '+')
        }),
    decreases e, 0nat,
{
    let t = clean_text(e);
    match e {
        SymbolicExpr::Num(n) => {
            lemma_decimal_numeral(n as nat);
            lemma_numeral(r, s, p, t);
            assert(numerals_count(r, n as nat));
            assert(s[p + 0] == t[0]);
        },
        SymbolicExpr::Float(x) => {
            lemma_rounded(r, s, p, x, 4);
            assert(s[p + 0] == t[0]);
        },
        SymbolicExpr::Complex(z) => {
            lemma_rounded(r, s, p, z.re, 4);
            assert(s[p + 0] == t[0]);
        },
        SymbolicExpr::E => {
            reveal_strlit("e");
            assert(s[p + 0] == t[0]);
        },
        SymbolicExpr::Pi => {
            reveal_strlit("pi");
            assert(s[p + 0] == t[0] && s[p + 1] == t[0int + 1]);
        },
        SymbolicExpr::I => {
            reveal_strlit("i");
            assert(s[p + 0] == t[0]);
            assert(!at(s, p + 1, 'n'));
        },
        SymbolicExpr::Ln(a) => {
            reveal_strlit("ln(");
            reveal_strlit(")");
            let (l, c) = ("ln("@, ")"@);
            lemma_holds_part(s, p, l, clean_text(*a), c);
            assert(s[p + 0] == l[0] && s[p + 1] == l[0int + 1] && s[p + 2] == l[0int + 2]);
            let q = p + 3 + clean_text(*a).len();
            assert(s[q + 0] == c[0]);
            lemma_sum(r, s, p + 3, *a);
        },
        _ => {},
    }
}

/// What stands in brackets is read as one thing.
proof fn lemma_bracketed<V>(r: Script<V>, s: Seq<char>, p: int, e: SymbolicExpr)
    requires
        is_script(r),
        is_finite_expr(e),
        holds(s, p, "("@ + clean_text(e) + ")"@),
    ensures
        ({
            let q = p + clean_text(e).len() + 2;
            &&& p < q <= s.len()
            &&& "("@.len() == 1 && ")"@.len() == 1
            &&& read_atom(r, s, p) == Some((worth(r, e), q))
            &&& !at(s, p, '-') && !at(s, p, '+')
        }),
    decreases e, 4nat,
{
    reveal_strlit("(");
    reveal_strlit(")");
    let (o, c) = ("("@, ")"@);
    lemma_holds_part(s, p, o, clean_text(e), c);
    assert(s[p + 0] == o[0]);
    let q = p + 1 + clean_text(e).len();
    assert(s[q + 0] == c[0]);
    lemma_sum(r, s, p + 1, e);
}

/// The base of a power.
proof fn lemma_base<V>(r: Script<V>, s: Seq<char>, p: int, e: SymbolicExpr)
    requires
        is_script(r),
        is_finite_expr(e),
        holds(s, p, base_text(e)),
        at(s, p + base_text(e).len(), '^'),
    ensures
        ({
            let q = p + base_text(e).len();
            &&& p < q
            &&& read_atom(r, s, p) == Some((worth(r, e), q))
            &&& !at(s, p, '-') && !at(s, p, '+')
        }),
    decreases e, 5nat,
{
    if is_loose(e) {
        lemma_bracketed(r, s, p, e);
    } else {
        lemma_atom(r, s, p, e);
    }
}

/// A divisor or an exponent is read as one factor.
proof fn lemma_tight<V>(r: Script<V>, s: Seq<char>, p: int, e: SymbolicExpr)
    requires
        is_script(r),
        is_finite_expr(e),
        holds(s, p, tight_text(e)),
        factor_ends(s, p + tight_text(e).len()),
    ensures
        p < p + tight_text(e).len() <= s.len(),
        read_factor(r, s, p) == Some((worth(r, e), p + tight_text(e).len())),
    decreases e, 5nat,
{
    if is_negated_product(e) || is_sum(e) || e is Mul || e is Div {
        lemma_bracketed(r, s, p, e);
    } else {
        lemma_factor(r, s, p, e);
    }
}

/// What is neither a sum nor a product is read as one factor.
proof fn lemma_factor<V>(r: Script<V>, s: Seq<char>, p: int, e: SymbolicExpr)
    requires
        is_script(r),
        is_finite_expr(e),
        !is_sum(e),
        !(e is Mul),
        !(e is Div),
        !is_negated_product(e),
        holds(s, p, clean_text(e)),
        factor_ends(s, p + clean_text(e).len()),
    ensures
        p < p + clean_text(e).len() <= s.len(),
        read_factor(r, s, p) == Some((worth(r, e), p + clean_text(e).len())),
    decreases e, 1nat,
{
    let t = clean_text(e);
    let m = r.numbers;
    if !is_loose(e) {
        lemma_atom(r, s, p, e);
    } else {
        match e {
            SymbolicExpr::Num(n) => {
                let d = decimal((-n) as nat);
                lemma_holds_two(s, p, seq!['-'], d);
                lemma_decimal_numeral((-n) as nat);
                lemma_numeral(r, s, p + 1, d);
                assert(s[p + 0] == t[0]);
                assert(s[p + 1 + 0] == d[0]);
                assert(numerals_count(r, (-n) as nat));
                assert(wholes_agree(m, -n as int, 0));
            },
            SymbolicExpr::Float(x) => {
                lemma_rounded(r, s, p, x, 4);
            },
            SymbolicExpr::Complex(z) => {
                if is_zero(z.re) {
                    reveal_strlit("i");
                    lemma_holds_two(s, p, fixed_text(z.im, 4), "i"@);
                    let q = p + fixed_text(z.im, 4).len();
                    assert(s[q + 0] == "i"@[0]);
                    lemma_rounded(r, s, p, z.im, 4);
                } else {
                    lemma_rounded(r, s, p, z.re, 4);
                }
            },
            SymbolicExpr::Inf(positive) => {
                reveal_strlit("+inf");
                reveal_strlit("-inf");
                assert(s[p + 0] == t[0] && s[p + 1] == t[0int + 1] && s[p + 2] == t[0int + 2] && s[p
                    + 3] == t[0int + 3]);
                assert(read_atom(r, s, p + 1) == Some((r.inf, p + 4)));
                assert(read_factor(r, s, p + 1) == Some((r.inf, p + 4)));
            },
            SymbolicExpr::Neg(x) => {
                reveal_strlit("-");
                reveal_strlit("-(");
                reveal_strlit("(");
                assert(t =~= "-"@ + tight_text(*x));
                lemma_holds_two(s, p, "-"@, tight_text(*x));
                assert(s[p + 0] == "-"@[0]);
                lemma_tight(r, s, p + 1, *x);
            },
            SymbolicExpr::Pow(a, b) => {
                reveal_strlit("^");
                lemma_holds_part(s, p, base_text(*a), "^"@, tight_text(*b));
                let q = p + base_text(*a).len();
                assert(s[q + 0] == "^"@[0]);
                lemma_base(r, s, p, *a);
                lemma_tight(r, s, q + 1, *b);
            },
            SymbolicExpr::Exp(a) => {
                reveal_strlit("e^");
                lemma_holds_two(s, p, "e^"@, tight_text(*a));
                assert(s[p + 0] == "e^"@[0] && s[p + 1] == "e^"@[0int + 1]);
                lemma_tight(r, s, p + 2, *a);
                assert(powers_of_e(r, worth(r, *a)));
                assert(read_atom(r, s, p) == Some((m.e, p + 1)));
            },
            _ => {},
        }
    }
}

/// `v` times what has been read from `p` to `q`, as far as the rest of a product is concerned.
spec fn reads_as_factor<V>(r: Script<V>, s: Seq<char>, f: V, z: int, v: V, q: int) -> bool {
    forall|c: V|
        #![trigger (r.numbers.mul)(c, v)]
        product_rest(r, s, (r.numbers.mul)(c, f), z) == product_rest(
            r,
            s,
            (r.numbers.mul)(c, v),
            q,
        )
}

/// What is no sum is read as factors whose product it is worth: the first is `f` and ends at `z`,
/// and the others come to the same as if the whole had been read at once.
proof fn lemma_product<V>(r: Script<V>, s: Seq<char>, p: int, e: SymbolicExpr) -> (first: (V, int))
    requires
        is_script(r),
        is_finite_expr(e),
        !is_sum(e),
        holds(s, p, clean_text(e)),
        factor_ends(s, p + clean_text(e).len()),
    ensures
        read_factor(r, s, p) == Some(first),
        p < first.1 <= p + clean_text(e).len() <= s.len(),
        reads_as_factor(r, s, first.0, first.1, worth(r, e), p + clean_text(e).len()),
    decreases e, 2nat,
{
    let q = p + clean_text(e).len();
    let m = r.numbers;
    let w = worth(r, e);
    match e {
        SymbolicExpr::Mul(a, b) => {
            if i_factor(*a, *b) is Some {
                assert(e == SymbolicExpr::Mul(Box::new(*a), Box::new(*b)));
                lemma_imaginary(r, s, p, *a, *b);
                (w, q)
            } else {
                reveal_strlit(" * ");
                let (ta, star, tb) = (operand_text(*a), " * "@, operand_text(*b));
                assert(clean_text(e) == ta + star + tb);
                lemma_holds_part(s, p, ta, star, tb);
                let k = p + ta.len();
                assert(s[k + 0] == star[0] && s[k + 1] == star[0int + 1] && s[k + 2] == star[0int
                    + 2]);
                let (f, z) = lemma_operand(r, s, p, *a);
                let (g, y) = lemma_operand(r, s, k + 3, *b);
                let (wa, wb) = (worth(r, *a), worth(r, *b));
                assert forall|c: V|
                    #![trigger (m.mul)(c, w)]
                    product_rest(r, s, (m.mul)(c, f), z) == product_rest(
                    r,
                    s,
                    (m.mul)(c, w),
                    q,
                ) by {
                    let d = (m.mul)(c, wa);
                    assert(product_rest(r, s, d, k) == product_after(r, s, d, true, k + 3));
                    assert(product_after(r, s, d, true, k + 3) == product_rest(
                        r,
                        s,
                        (m.mul)(d, g),
                        y,
                    ));
                    assert(product_rest(r, s, (m.mul)(d, g), y) == product_rest(
                        r,
                        s,
                        (m.mul)(d, wb),
                        q,
                    ));
                    assert(products_associate(m, c, wa, wb));
                }
                (f, z)
            }
        },
        SymbolicExpr::Div(a, b) => {
            reveal_strlit("/");
            let (ta, slash, tb) = (operand_text(*a), "/"@, tight_text(*b));
            lemma_holds_part(s, p, ta, slash, tb);
            let k = p + ta.len();
            assert(s[k + 0] == slash[0]);
            let (f, z) = lemma_operand(r, s, p, *a);
            lemma_tight(r, s, k + 1, *b);
            let (wa, wb) = (worth(r, *a), worth(r, *b));
            assert forall|c: V|
                #![trigger (m.mul)(c, w)]
                product_rest(r, s, (m.mul)(c, f), z) == product_rest(r, s, (m.mul)(c, w), q) by {
                let d = (m.mul)(c, wa);
                assert(product_rest(r, s, d, k) == product_after(r, s, d, false, k + 1));
                assert(product_after(r, s, d, false, k + 1) == product_rest(
                    r,
                    s,
                    (m.div)(d, wb),
                    q,
                ));
                assert(quotients_multiply(r, d, wb) && quotients_multiply(r, wa, wb));
                assert(products_associate(m, c, wa, (r.inverse)(wb)));
            }
            (f, z)
        },
        SymbolicExpr::Neg(x) => {
            if is_negated_product(e) {
                assert(!is_sum(*x)) by {
                    reveal_with_fuel(is_negated_product, 2);
                }
                reveal_strlit("-");
                lemma_holds_two(s, p, "-"@, clean_text(*x));
                assert(s[p + 0] == "-"@[0]);
                let (f, z) = lemma_product(r, s, p + 1, *x);
                let v = worth(r, *x);
                assert forall|c: V|
                    #![trigger (m.mul)(c, w)]
                    product_rest(r, s, (m.mul)(c, (m.neg)(f)), z) == product_rest(
                    r,
                    s,
                    (m.mul)(c, w),
                    q,
                ) by {
                    lemma_signs(m, c, f);
                    lemma_signs(m, c, v);
                    assert((m.mul)((m.neg)(c), v) == (m.mul)(c, w));
                }
                ((m.neg)(f), z)
            } else {
                lemma_factor(r, s, p, e);
                (w, q)
            }
        },
        _ => {
            lemma_factor(r, s, p, e);
            (w, q)
        },
    }
}

/// A whole number of `i` is read as one factor.
proof fn lemma_imaginary<V>(
    r: Script<V>,
    s: Seq<char>,
    p: int,
    a: SymbolicExpr,
    b: SymbolicExpr,
)
    requires
        is_script(r),
        i_factor(a, b) is Some,
        ({
            let t = clean_text(SymbolicExpr::Mul(Box::new(a), Box::new(b)));
            holds(s, p, t) && factor_ends(s, p + t.len())
        }),
    ensures
        ({
            let e = SymbolicExpr::Mul(Box::new(a), Box::new(b));
            let q = p + clean_text(e).len();
            p < q <= s.len() && read_factor(r, s, p) == Some((worth(r, e), q))
        }),
{
    let e = SymbolicExpr::Mul(Box::new(a), Box::new(b));
    let t = clean_text(e);
    let m = r.numbers;
    let n = i_factor(a, b)->0;
    let v = (m.whole)(n as int);
    let q = p + t.len();
    assert(products_commute(m, v, r.i));
    assert(worth(r, e) == (m.mul)(v, r.i)) by {
        reveal_with_fuel(worth, 2);
    }
    reveal_strlit("i");
    reveal_strlit("-i");
    if n == 1 {
        lemma_products(m, r.i);
        assert(s[p + 0] == t[0]);
        assert(!at(s, p + 1, 'n'));
        assert(read_atom(r, s, p) == Some((r.i, p + 1)));
    } else if n == -1 {
        lemma_products(m, r.i);
        lemma_signs(m, m.one(), r.i);
        assert(wholes_agree(m, 1, 0));
        assert(s[p + 0] == t[0] && s[p + 1] == t[0int + 1]);
        assert(!at(s, p + 2, 'n'));
        assert(read_atom(r, s, p + 1) == Some((r.i, p + 2)));
        assert(read_factor(r, s, p + 1) == Some((r.i, p + 2)));
    } else if n >= 0 {
        let d = decimal(n as nat);
        lemma_decimal_numeral(n as nat);
        assert(numerals_count(r, n as nat));
        lemma_holds_two(s, p, d, "i"@);
        assert(s[p + d.len() + 0] == "i"@[0]);
        assert(s[p + 0] == d[0]);
        lemma_numeral(r, s, p, d);
        assert(read_factor(r, s, p) == Some(((m.mul)((r.numeral)(d), r.i), q)));
    } else {
        let d = decimal((-n) as nat);
        lemma_decimal_numeral((-n) as nat);
        assert(numerals_count(r, (-n) as nat));
        assert(wholes_agree(m, -n as int, 0));
        lemma_holds_part(s, p, seq!['-'], d, "i"@);
        assert(s[p + 0] == seq!['-'][0]);
        assert(s[p + 1 + d.len() + 0] == "i"@[0]);
        assert(s[p + 1 + 0] == d[0]);
        lemma_numeral(r, s, p + 1, d);
        lemma_signs(m, (r.numeral)(d), r.i);
        assert(read_factor(r, s, p + 1) == Some(((m.mul)((r.numeral)(d), r.i), q)));
    }
}

/// An operand is read as factors whose product it is worth.
proof fn lemma_operand<V>(r: Script<V>, s: Seq<char>, p: int, e: SymbolicExpr) -> (first: (V, int))
    requires
        is_script(r),
        is_finite_expr(e),
        holds(s, p, operand_text(e)),
        factor_ends(s, p + operand_text(e).len()),
    ensures
        read_factor(r, s, p) == Some(first),
        p < first.1 <= p + operand_text(e).len() <= s.len(),
        reads_as_factor(r, s, first.0, first.1, worth(r, e), p + operand_text(e).len()),
    decreases e, 5nat,
{
    if is_sum(e) || e is Mul || e is Div {
        lemma_bracketed(r, s, p, e);
        (worth(r, e), p + operand_text(e).len())
    } else {
        lemma_product(r, s, p, e)
    }
}

/// Factors that are followed by nothing more come to their product.
proof fn lemma_term_read<V>(r: Script<V>, s: Seq<char>, p: int, f: V, z: int, v: V, q: int)
    requires
        is_script(r),
        read_factor(r, s, p) == Some((f, z)),
        p < z <= q <= s.len(),
        reads_as_factor(r, s, f, z, v, q),
        term_ends(s, q),
    ensures
        read_product(r, s, p) == Some((v, q)),
{
    let m = r.numbers;
    lemma_products(m, f);
    lemma_products(m, v);
    assert((m.mul)(m.one(), v) == v);
}

/// The two parts of a complex number are read as the terms of a sum.
proof fn lemma_two_parts<V>(r: Script<V>, s: Seq<char>, p: int, z: Complex64, places: usize)
    requires
        is_script(r),
        is_finite_text(z.re, places),
        is_finite_text(z.im, places),
        ({
            let t = fixed_text(z.re, places) + " + "@ + fixed_text(z.im, places) + "i"@;
            holds(s, p, t) && term_ends(s, p + t.len())
        }),
    ensures
        ({
            let k = p + fixed_text(z.re, places).len();
            let q = k + 3 + fixed_text(z.im, places).len() + 1;
            let t = fixed_text(z.re, places) + " + "@ + fixed_text(z.im, places) + "i"@;
            &&& q == p + t.len()
            &&& p < k < q <= s.len()
            &&& spaced_sign(s, k, '+')
            &&& read_product(r, s, p) == Some((rounded(r, z.re, places), k))
            &&& read_product(r, s, k + 3) == Some(
                ((r.numbers.mul)(rounded(r, z.im, places), r.i), q),
            )
        }),
{
    reveal_strlit(" + ");
    reveal_strlit("i");
    let (ta, plus, tb) = (fixed_text(z.re, places), " + "@, fixed_text(z.im, places));
    lemma_holds_two(s, p, ta + plus + tb, "i"@);
    lemma_holds_part(s, p, ta, plus, tb);
    let k = p + ta.len();
    let j = k + 3 + tb.len();
    assert(s[k + 0] == plus[0] && s[k + 1] == plus[0int + 1] && s[k + 2] == plus[0int + 2]);
    assert(s[j + 0] == "i"@[0]);
    lemma_rounded(r, s, p, z.re, places);
    lemma_rounded(r, s, k + 3, z.im, places);
}

/// An expression is read as the terms of a sum: by itself, and as part of a longer one.
proof fn lemma_sum<V>(r: Script<V>, s: Seq<char>, p: int, e: SymbolicExpr)
    requires
        is_script(r),
        is_finite_expr(e),
        holds(s, p, clean_text(e)),
        term_ends(s, p + clean_text(e).len()),
    ensures
        ({
            let q = p + clean_text(e).len();
            let w = worth(r, e);
            &&& p < q <= s.len()
            &&& read_sum(r, s, p) == sum_rest(r, s, w, q)
            &&& forall|u: V|
                #![trigger (r.numbers.add)(u, w)]
                sum_after(r, s, u, true, p) == sum_rest(r, s, (r.numbers.add)(u, w), q)
        }),
    decreases e, 3nat,
{
    let q = p + clean_text(e).len();
    let m = r.numbers;
    let w = worth(r, e);
    match e {
        SymbolicExpr::Add(a, b) => {
            reveal_strlit(" + ");
            let (ta, plus, tb) = (clean_text(*a), " + "@, clean_text(*b));
            lemma_holds_part(s, p, ta, plus, tb);
            let k = p + ta.len();
            assert(s[k + 0] == plus[0] && s[k + 1] == plus[0int + 1] && s[k + 2] == plus[0int + 2]);
            lemma_sum(r, s, p, *a);
            lemma_sum(r, s, k + 3, *b);
            let (wa, wb) = (worth(r, *a), worth(r, *b));
            assert(sum_rest(r, s, wa, k) == sum_after(r, s, wa, true, k + 3));
            assert forall|u: V|
                #![trigger (m.add)(u, w)]
                sum_after(r, s, u, true, p) == sum_rest(r, s, (m.add)(u, w), q) by {
                let d = (m.add)(u, wa);
                assert(sum_rest(r, s, d, k) == sum_after(r, s, d, true, k + 3));
                assert(sum_after(r, s, d, true, k + 3) == sum_rest(r, s, (m.add)(d, wb), q));
                assert(sums_associate(m, u, wa, wb));
            }
        },
        SymbolicExpr::Sub(a, b) => {
            reveal_strlit(" - ");
            let (ta, minus, tb) = (clean_text(*a), " - "@, operand_text(*b));
            lemma_holds_part(s, p, ta, minus, tb);
            let k = p + ta.len();
            assert(s[k + 0] == minus[0] && s[k + 1] == minus[0int + 1] && s[k + 2] == minus[0int
                + 2]);
            lemma_sum(r, s, p, *a);
            let (wa, wb) = (worth(r, *a), worth(r, *b));
            let (f, z) = lemma_operand(r, s, k + 3, *b);
            lemma_term_read(r, s, k + 3, f, z, wb, q);
            assert(sum_rest(r, s, wa, k) == sum_after(r, s, wa, false, k + 3));
            assert forall|u: V|
                #![trigger (m.add)(u, w)]
                sum_after(r, s, u, true, p) == sum_rest(r, s, (m.add)(u, w), q) by {
                let d = (m.add)(u, wa);
                assert(sum_rest(r, s, d, k) == sum_after(r, s, d, false, k + 3));
                assert(sum_after(r, s, d, false, k + 3) == sum_rest(r, s, (m.sub)(d, wb), q));
                assert(sums_associate(m, u, wa, (m.neg)(wb)));
                assert(sums_cancel(m, d, wb) && sums_cancel(m, wa, wb));
            }
        },
        SymbolicExpr::Complex(z) if is_sum(e) => {
            let k = p + fixed_text(z.re, 4).len();
            let (wa, wb) = (rounded(r, z.re, 4), (m.mul)(rounded(r, z.im, 4), r.i));
            lemma_two_parts(r, s, p, z, 4);
            assert(sum_rest(r, s, wa, k) == sum_after(r, s, wa, true, k + 3));
            assert forall|u: V|
                #![trigger (m.add)(u, w)]
                sum_after(r, s, u, true, p) == sum_rest(r, s, (m.add)(u, w), q) by {
                let d = (m.add)(u, wa);
                assert(sum_rest(r, s, d, k) == sum_after(r, s, d, true, k + 3));
                assert(sum_after(r, s, d, true, k + 3) == sum_rest(r, s, (m.add)(d, wb), q));
                assert(sums_associate(m, u, wa, wb));
            }
        },
        _ => {
            let (f, z) = lemma_product(r, s, p, e);
            lemma_term_read(r, s, p, f, z, w, q);
        },
    }
}

/// The text of an expression, read by the usual order of operations, is worth what the expression
/// is worth: products before sums, powers before products and signs, each from left to right, and
/// brackets before all. So it is for every expression whose numbers are finite.
pub proof fn law_text_keeps_worth<V>(r: Script<V>, e: SymbolicExpr)
    requires
        is_script(r),
        is_finite_expr(e),
    ensures
        read_sum(r, clean_text(e), 0) == Some((worth(r, e), clean_text(e).len() as int)),
{
    let t = clean_text(e);
    assert(holds(t, 0, t));
    lemma_sum(r, t, 0, e);
}

/// The text of a number in a catalog, read in the same way, is the number with its parts rounded to
/// six decimals. An imaginary part that is negligible counts as zero, and so does such a real part
/// beside an imaginary one that is not.
pub proof fn law_number_text_keeps_worth<V>(r: Script<V>, z: Complex64)
    requires
        is_script(r),
        is_finite_text(z.re, 6),
        is_finite_text(z.im, 6),
    ensures
        ({
            let m = r.numbers;
            let (no_re, no_im) = (negligible(z.re) && !negligible(z.im), negligible(z.im));
            let re = if no_re {
                m.zero()
            } else {
                rounded(r, z.re, 6)
            };
            let im = if no_im {
                m.zero()
            } else {
                rounded(r, z.im, 6)
            };
            read_sum(r, number_text(z), 0) == Some(
                ((m.add)(re, (m.mul)(im, r.i)), number_text(z).len() as int),
            )
        }),
{
    let m = r.numbers;
    let t = number_text(z);
    assert(holds(t, 0, t));
    lemma_products(m, r.i);
    if negligible(z.im) {
        lemma_rounded(r, t, 0, z.re, 6);
        lemma_sums(m, rounded(r, z.re, 6), m.zero());
    } else if negligible(z.re) {
        reveal_strlit("i");
        lemma_holds_two(t, 0, fixed_text(z.im, 6), "i"@);
        let q = fixed_text(z.im, 6).len() as int;
        assert(t[q + 0] == "i"@[0]);
        lemma_rounded(r, t, 0, z.im, 6);
        lemma_sums(m, (m.mul)(rounded(r, z.im, 6), r.i), m.zero());
    } else {
        lemma_two_parts(r, t, 0, z, 6);
        let k = fixed_text(z.re, 6).len() as int;
        let wa = rounded(r, z.re, 6);
        assert(sum_rest(r, t, wa, k) == sum_after(r, t, wa, true, k + 3));
    }
}

/// Expressions with the same text are worth the same.
pub proof fn law_same_text_same_worth<V>(r: Script<V>, a: SymbolicExpr, b: SymbolicExpr)
    requires
        is_script(r),
        is_finite_expr(a),
        is_finite_expr(b),
        clean_text(a) == clean_text(b),
    ensures
        worth(r, a) == worth(r, b),
{
    law_text_keeps_worth(r, a);
    law_text_keeps_worth(r, b);
}

/// A logarithm is written as such: its text is that of what it is taken of, between `ln(` and `)`,
/// and so never the same.
pub proof fn law_logarithm_text(a: SymbolicExpr)
    ensures
        clean_text(SymbolicExpr::Ln(Box::new(a))) == seq!['l', 'n', '('] + clean_text(a) + seq![')'],
        clean_text(SymbolicExpr::Ln(Box::new(a))) != clean_text(a),
{
    reveal_strlit("ln(");
    reveal_strlit(")");
    let t = clean_text(SymbolicExpr::Ln(Box::new(a)));
    assert(t =~= seq!['l', 'n', '('] + clean_text(a) + seq![')']);
    assert(t.len() == clean_text(a).len() + 4);
}

} // verus!
