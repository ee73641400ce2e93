//! An expression that was written is read back.

use vstd::prelude::*;

use crate::arena::{
    arena_ok, consts_apart, distances_agree, interned, law_separated_expression_is_kept, node_ok,
    tree, Node, Op, NIL,
};
use crate::catalog::{const_text, eml_text, value_step, values_follow};
use crate::complex::{prim_outcome, Complex64};
use crate::curve::may_have_value;
use crate::expr::{well_separated, Expr};
use crate::float::{is_zero, plain_text};
use crate::listing::{any_digits_end, blanks_start, is_any_digit, trim};
use crate::parser::{
    digits_end, float_end, float_ok, float_start, float_value, is_ascii, is_name_char, name_end,
    named_constant, names_primitive, names_variable, read_all, read_expr, read_operands,
    read_term,
};
use crate::plan::law_apart_is_well_separated;
use crate::subtree::{
    imaginary_end, is_number_char, lower, lower_text, number_value, read_node, read_pair,
    read_subtree, read_token, signed_end, sum_parts, token_end,
};
use crate::text::{at, is_blank, is_digit, skip_blanks};

verus! {

/// `t` is a decimal number: digits, perhaps behind a minus sign, and perhaps a point and more digits.
pub open spec fn is_decimal(t: Seq<char>) -> bool {
    float_end(t, 0) == t.len() && float_ok(t, 0)
}

/// `t` is a decimal number, and the binary64 number that it stands for is `b`.
pub open spec fn reads_as(t: Seq<char>, b: u64) -> bool {
    is_decimal(t) && float_value(t) == Some(b)
}

/// The numbers in the text of a constant are read as they were, and a real constant has a positive
/// zero as its imaginary part.
pub open spec fn const_readable(v: Complex64) -> bool {
    if is_zero(v.im) {
        v.im == 0 && reads_as(const_text(v), v.re)
    } else {
        reads_as(plain_text(v.re), v.re) && reads_as(plain_text(v.im), v.im)
    }
}

/// The constants of `e` are read as they were.
pub open spec fn readable(e: Expr) -> bool
    decreases e,
{
    match e {
        Expr::Var => true,
        Expr::Const(v) => const_readable(v),
        Expr::Prim(a, b) => readable(*a) && readable(*b),
    }
}

/// `t` stands in `s` at place `p`.
pub open spec fn holds(s: Seq<char>, p: int, t: Seq<char>) -> bool {
    0 <= p && p + t.len() <= s.len() && forall|i: int|
        0 <= i < t.len() ==> #[trigger] s[p + i] == t[i]
}

/// A part of what stands in `s` stands there too.
pub proof fn lemma_holds_part(s: Seq<char>, p: int, a: Seq<char>, b: Seq<char>, c: Seq<char>)
    requires
        holds(s, p, a + b + c),
    ensures
        holds(s, p, a),
        holds(s, p + a.len(), b),
        holds(s, p + a.len() + b.len(), c),
{
    let t = a + b + c;
    assert forall|i: int| 0 <= i < a.len() implies #[trigger] s[p + i] == a[i] by {
        assert(s[p + i] == t[i]);
    }
    assert forall|i: int| 0 <= i < b.len() implies #[trigger] s[p + a.len() + i] == b[i] by {
        assert(s[p + (a.len() + i)] == t[a.len() + i]);
    }
    assert forall|i: int| 0 <= i < c.len() implies #[trigger] s[p + a.len() + b.len() + i] == c[i] by {
        assert(s[p + (a.len() + b.len() + i)] == t[a.len() + b.len() + i]);
    }
}

/// Where digits end.
proof fn lemma_digits(t: Seq<char>, q: int)
    requires
        0 <= q <= t.len(),
    ensures
        q <= digits_end(t, q) <= t.len(),
        forall|i: int| q <= i < digits_end(t, q) ==> is_digit(#[trigger] t[i]),
        digits_end(t, q) < t.len() ==> !is_digit(t[digits_end(t, q)]),
    decreases t.len() - q,
{
    if q < t.len() && is_digit(t[q]) {
        lemma_digits(t, q + 1);
    }
}

/// Digits end where they do in a part of the text, when no digit follows the part.
proof fn lemma_digits_inside(s: Seq<char>, p: int, t: Seq<char>, q: int)
    requires
        holds(s, p, t),
        0 <= q <= t.len(),
        p + t.len() == s.len() || !is_digit(s[p + t.len()]),
    ensures
        digits_end(s, p + q) == p + digits_end(t, q),
    decreases t.len() - q,
{
    if q < t.len() {
        assert(s[p + q] == t[q]);
        if is_digit(t[q]) {
            lemma_digits_inside(s, p, t, q + 1);
        }
    }
}

/// What the characters of a number are.
pub proof fn lemma_number_chars(t: Seq<char>)
    requires
        is_decimal(t),
    ensures
        t.len() > 0,
        is_digit(t[0]) || t[0] == '-',
        t[0] == '-' ==> t.len() > 1 && is_digit(t[1]),
        forall|i: int| 0 <= i < t.len() ==> is_digit(#[trigger] t[i]) || t[i] == '.' || t[i] == '-',
{
    let start = float_start(t, 0);
    let whole = digits_end(t, start);
    lemma_digits(t, start);
    assert(is_digit(t[start]));
    if at(t, whole, '.') {
        lemma_digits(t, whole + 1);
    }
    assert forall|i: int| 0 <= i < t.len() implies is_digit(#[trigger] t[i]) || t[i] == '.' || t[i]
        == '-' by {
        if i > whole {
            assert(at(t, whole, '.'));
        }
    }
}

/// A number that stands in a text is read from it.
pub proof fn lemma_term(s: Seq<char>, p: int, t: Seq<char>)
    requires
        holds(s, p, t),
        is_decimal(t),
        p + t.len() == s.len() || (!is_digit(s[p + t.len()]) && s[p + t.len()] != '.'),
    ensures
        ({
            let end = p + t.len();
            let unit = at(s, end, 'i') || at(s, end, 'I');
            read_term(s, p) == Ok::<((u64, bool), int), (Seq<char>, int)>(
                (
                    (float_value(t)->0, unit),
                    if unit {
                        end + 1
                    } else {
                        end as int
                    },
                ),
            )
        }),
{
    lemma_number_chars(t);
    let start = float_start(t, 0);
    let whole = digits_end(t, start);
    lemma_digits(t, start);
    assert(s[p + 0] == t[0]);
    assert(float_start(s, p) == p + start);
    lemma_digits_inside(s, p, t, start);
    if whole < t.len() {
        assert(s[p + whole] == t[whole]);
        assert(at(t, whole, '.'));
        lemma_digits_inside(s, p, t, whole + 1);
    }
    assert(float_end(s, p) == p + t.len());
    lemma_held(s, p, t);
}

/// What stands in a text can be cut out of it.
pub proof fn lemma_held(s: Seq<char>, p: int, t: Seq<char>)
    requires
        holds(s, p, t),
    ensures
        s.subrange(p, p + t.len()) == t,
{
    let cut = s.subrange(p, p + t.len());
    assert forall|i: int| 0 <= i < t.len() implies #[trigger] cut[i] == t[i] by {
        assert(s[p + i] == t[i]);
    }
    assert(cut =~= t);
}

/// The end of an expression: the text ends, or a comma or a closing bracket follows.
spec fn ends_at(s: Seq<char>, p: int) -> bool {
    p == s.len() || (0 <= p < s.len() && (s[p] == ',' || s[p] == ')'))
}

/// The parts of a complex constant in the text.
proof fn lemma_const_parts(s: Seq<char>, p: int, v: Complex64)
    requires
        !is_zero(v.im),
        holds(s, p, const_text(v)),
    ensures
        ({
            let (re, im) = (plain_text(v.re), plain_text(v.im));
            let sign = p + re.len();
            &&& holds(s, p, re)
            &&& at(s, sign, '+')
            &&& holds(s, sign + 1, im)
            &&& at(s, sign + 1 + im.len(), 'i')
            &&& sign + 1 + im.len() + 1 == p + const_text(v).len()
        }),
{
    let (re, im) = (plain_text(v.re), plain_text(v.im));
    reveal_strlit("+");
    reveal_strlit("i");
    assert(const_text(v) =~= re + ("+"@ + im) + "i"@);
    lemma_holds_part(s, p, re, "+"@ + im, "i"@);
    assert("+"@ + im =~= "+"@ + im + Seq::empty());
    lemma_holds_part(s, p + re.len(), "+"@, im, Seq::empty());
    assert(s[p + re.len() + 0] == "+"@[0]);
    let q = p + re.len() + ("+"@ + im).len();
    assert(s[q + 0] == "i"@[0]);
}

/// A constant that stands in a text is read from it.
proof fn lemma_read_const(s: Seq<char>, p: int, v: Complex64)
    requires
        const_readable(v),
        holds(s, p, const_text(v)),
        ends_at(s, p + const_text(v).len()),
    ensures
        read_expr(s, p) == Ok::<(Expr, int), (Seq<char>, int)>(
            (Expr::Const(v), p + const_text(v).len()),
        ),
{
    let t = const_text(v);
    let end = p + t.len();
    if is_zero(v.im) {
        lemma_number_chars(t);
        lemma_term(s, p, t);
        assert(s[p + 0] == t[0]);
        assert(skip_blanks(s, p) == p);
        assert(skip_blanks(s, end) == end);
    } else {
        let (re, im) = (plain_text(v.re), plain_text(v.im));
        let sign = p + re.len();
        lemma_const_parts(s, p, v);
        lemma_number_chars(re);
        lemma_number_chars(im);
        lemma_term(s, p, re);
        lemma_term(s, sign + 1, im);
        assert(s[p + 0] == re[0]);
        assert(s[sign + 1 + 0] == im[0]);
        assert(skip_blanks(s, p) == p);
        assert(skip_blanks(s, sign) == sign);
        assert(skip_blanks(s, sign + 1) == sign + 1);
    }
}

/// The name of the primitive, and the places of its operands.
proof fn lemma_prim_parts(s: Seq<char>, p: int, a: Expr, b: Expr)
    requires
        holds(s, p, eml_text(Expr::Prim(Box::new(a), Box::new(b)))),
    ensures
        ({
            let p2 = p + 4 + eml_text(a).len();
            let p4 = p2 + 1 + eml_text(b).len();
            &&& s.subrange(p, p + 3) == "eml"@
            &&& holds(s, p, "eml"@)
            &&& at(s, p + 3, '(')
            &&& holds(s, p + 4, eml_text(a))
            &&& at(s, p2, ',')
            &&& holds(s, p2 + 1, eml_text(b))
            &&& at(s, p4, ')')
            &&& p4 + 1 == p + eml_text(Expr::Prim(Box::new(a), Box::new(b))).len()
        }),
{
    let (x, y) = (eml_text(a), eml_text(b));
    reveal_strlit("eml(");
    reveal_strlit("eml");
    reveal_strlit(",");
    reveal_strlit(")");
    let t = eml_text(Expr::Prim(Box::new(a), Box::new(b)));
    assert(t =~= "eml("@ + (x + ","@ + y) + ")"@);
    lemma_holds_part(s, p, "eml("@, x + ","@ + y, ")"@);
    lemma_holds_part(s, p + 4, x, ","@, y);
    assert(s[p + 0] == "eml("@[0]);
    assert(s[p + 1] == "eml("@[1]);
    assert(s[p + 2] == "eml("@[2]);
    assert(s[p + 3] == "eml("@[3]);
    assert(s.subrange(p, p + 3) =~= "eml"@);
    let p2 = p + 4 + x.len();
    assert(s[p2 + 0] == ","@[0]);
    let p4 = p + 4 + (x + ","@ + y).len();
    assert(s[p4 + 0] == ")"@[0]);
}

/// A name ends where it does.
pub proof fn lemma_name_at(s: Seq<char>, p: int, w: Seq<char>, q: int)
    requires
        holds(s, p, w),
        0 <= q <= w.len(),
        forall|i: int| 0 <= i < w.len() ==> is_name_char(#[trigger] w[i]),
        p + w.len() == s.len() || !is_name_char(s[p + w.len()]),
    ensures
        name_end(s, p + q) == p + w.len(),
    decreases w.len() - q,
{
    if q < w.len() {
        assert(s[p + q] == w[q]);
        lemma_name_at(s, p, w, q + 1);
    }
}

/// An expression that stands in a text is read from it.
proof fn lemma_read(s: Seq<char>, p: int, e: Expr)
    requires
        readable(e),
        holds(s, p, eml_text(e)),
        ends_at(s, p + eml_text(e).len()),
    ensures
        read_expr(s, p) == Ok::<(Expr, int), (Seq<char>, int)>((e, p + eml_text(e).len())),
        eml_text(e).len() > 0,
    decreases e,
{
    let end = p + eml_text(e).len();
    assert(end < s.len() ==> !is_blank(s[end]) && !is_name_char(s[end]));
    assert(skip_blanks(s, end) == end);
    match e {
        Expr::Var => {
            reveal_strlit("x");
            assert(s[p + 0] == "x"@[0]);
            lemma_name_at(s, p, "x"@, 0);
            assert(s.subrange(p, p + 1) =~= "x"@);
            assert(skip_blanks(s, p) == p);
        },
        Expr::Const(v) => {
            lemma_read_const(s, p, v);
            if is_zero(v.im) {
                lemma_number_chars(const_text(v));
            } else {
                lemma_number_chars(plain_text(v.re));
            }
        },
        Expr::Prim(a, b) => {
            let p2 = p + 4 + eml_text(*a).len();
            let p4 = p2 + 1 + eml_text(*b).len();
            lemma_prim_parts(s, p, *a, *b);
            lemma_read(s, p + 4, *a);
            lemma_read(s, p2 + 1, *b);
            reveal_strlit("eml");
            assert(s[p + 0] == 'e');
            lemma_name_at(s, p, "eml"@, 0);
            assert(skip_blanks(s, p) == p);
            assert(skip_blanks(s, p + 3) == p + 3);
            assert(skip_blanks(s, p2) == p2);
            assert(skip_blanks(s, p4) == p4);
            lemma_primitive_name();
            assert(read_operands(s, p + 3) == Ok::<(Expr, int), (Seq<char>, int)>((e, end as int)));
        },
    }
}

/// `eml` names the primitive and nothing else.
proof fn lemma_primitive_name()
    ensures
        names_primitive("eml"@),
        !names_variable("eml"@),
        named_constant("eml"@) is None,
{
    reveal_strlit("eml");
    reveal_strlit("x");
    reveal_strlit("X");
    reveal_strlit("i");
    reveal_strlit("I");
    reveal_strlit("pi");
    reveal_strlit("PI");
    reveal_strlit("Pi");
    reveal_strlit("e");
    reveal_strlit("E");
    assert("eml"@.len() == 3);
}

/// Parsing the text of an expression gives the expression back, bit by bit, as far as the numbers in
/// the text are read as they were.
pub proof fn law_text_is_parsed_back(e: Expr)
    requires
        readable(e),
    ensures
        read_all(eml_text(e)) == Ok::<Expr, (Seq<char>, int)>(e),
{
    let s = eml_text(e);
    lemma_read(s, 0, e);
    assert(skip_blanks(s, s.len() as int) == s.len());
}

/// An interner that held nothing before, and into which the text of an expression is parsed, holds
/// that expression, its constants bit for bit.
pub proof fn law_text_is_interned_back(e: Expr, after: Seq<Node>, id: int)
    requires
        readable(e),
        well_separated(e, e),
        after.len() <= NIL,
        read_all(eml_text(e)) matches Ok(f) && interned(Seq::empty(), f, after, id),
    ensures
        tree(after, id) == e,
{
    law_text_is_parsed_back(e);
    law_separated_expression_is_kept(e, after, id);
}

/// The same holds of the expressions of an interner, where the distance test says the same each time.
pub proof fn law_interner_text_is_interned_back(
    nodes: Seq<Node>,
    root: u32,
    after: Seq<Node>,
    id: int,
)
    requires
        arena_ok(nodes),
        consts_apart(nodes),
        distances_agree(),
        root < nodes.len(),
        readable(tree(nodes, root as int)),
        after.len() <= NIL,
        read_all(eml_text(tree(nodes, root as int))) matches Ok(f) && interned(
            Seq::empty(),
            f,
            after,
            id,
        ),
    ensures
        tree(after, id) == tree(nodes, root as int),
{
    law_apart_is_well_separated(nodes, root);
    law_text_is_interned_back(tree(nodes, root as int), after, id);
}

/// Digits of any script end where digits do, when something in ASCII or nothing follows.
proof fn lemma_any_digits(s: Seq<char>, q: int)
    requires
        0 <= q <= s.len(),
        digits_end(s, q) < s.len() ==> is_ascii(s[digits_end(s, q)]),
    ensures
        any_digits_end(s, q) == digits_end(s, q),
    decreases s.len() - q,
{
    if q < s.len() && is_digit(s[q]) {
        assert(is_any_digit(s[q]));
        lemma_any_digits(s, q + 1);
    }
}

/// Where a number that stands in a text ends.
proof fn lemma_signed(s: Seq<char>, p: int, t: Seq<char>, b: u64)
    requires
        holds(s, p, t),
        reads_as(t, b),
        p + t.len() == s.len() || (!is_digit(s[p + t.len()]) && s[p + t.len()] != '.' && is_ascii(
            s[p + t.len()],
        )),
    ensures
        signed_end(s, p) == Some(p + t.len()),
{
    lemma_number_chars(t);
    let start = float_start(t, 0);
    let whole = digits_end(t, start);
    lemma_digits(t, start);
    assert(s[p + 0] == t[0]);
    lemma_digits_inside(s, p, t, start);
    if whole < t.len() {
        assert(s[p + whole] == t[whole]);
        assert(at(t, whole, '.'));
        lemma_digits_inside(s, p, t, whole + 1);
        lemma_any_digits(s, p + whole + 1);
    }
    lemma_any_digits(s, p + start);
}

/// No number is one of the words for infinity.
proof fn lemma_not_infinite(s: Seq<char>)
    requires
        s.len() > 0,
        is_digit(s[0]) || (s[0] == '-' && s.len() > 1 && is_digit(s[1])),
    ensures
        lower_text(s) != "inf"@,
        lower_text(s) != "+inf"@,
        lower_text(s) != "-inf"@,
{
    reveal_strlit("inf");
    reveal_strlit("+inf");
    reveal_strlit("-inf");
    let w = lower_text(s);
    assert(w[0] == lower(s[0]));
    if s.len() > 1 {
        assert(w[1] == lower(s[1]));
    }
    assert("-inf"@[1] == 'i' && "-inf"@[0] == '-' && "+inf"@[0] == '+' && "inf"@[0] == 'i');
}

/// The text of a constant stands for the constant.
proof fn lemma_const_value(v: Complex64)
    requires
        const_readable(v),
    ensures
        number_value(const_text(v)) == Ok::<Complex64, Seq<char>>(v),
{
    let s = const_text(v);
    let n = s.len() as int;
    if is_zero(v.im) {
        lemma_number_chars(s);
        lemma_not_infinite(s);
        lemma_signed(s, 0, s, v.re);
        assert(skip_blanks(s, n) == n);
        assert(skip_blanks(s, n + 1) == n + 1);
        assert(any_digits_end(s, n + 1) == n + 1);
        assert(signed_end(s, n + 1) is None);
        assert(sum_parts(s) is None);
        assert(imaginary_end(s) is None);
    } else {
        let (re, im) = (plain_text(v.re), plain_text(v.im));
        let sign = re.len() as int;
        assert(holds(s, 0, s));
        lemma_const_parts(s, 0, v);
        lemma_number_chars(re);
        lemma_number_chars(im);
        assert(s[0int + 0] == re[0]);
        if re.len() > 1 {
            assert(s[0int + 1] == re[1]);
        }
        lemma_not_infinite(s);
        lemma_signed(s, 0, re, v.re);
        lemma_signed(s, sign + 1, im, v.im);
        assert(s[sign + 1 + 0] == im[0]);
        assert(skip_blanks(s, sign) == sign);
        assert(skip_blanks(s, sign + 1) == sign + 1);
        assert(sum_parts(s) == Some((sign, sign + 1, sign + 1 + im.len())));
        lemma_held(s, 0, re);
        lemma_held(s, sign + 1, im);
    }
}

/// A token ends where it does.
proof fn lemma_token_at(s: Seq<char>, p: int, t: Seq<char>, q: int)
    requires
        holds(s, p, t),
        0 <= q <= t.len(),
        forall|i: int| 0 <= i < t.len() ==> is_number_char(#[trigger] t[i]),
        ends_at(s, p + t.len()),
    ensures
        token_end(s, p + q) == p + t.len(),
    decreases t.len() - q,
{
    if q < t.len() {
        assert(s[p + q] == t[q]);
        lemma_token_at(s, p, t, q + 1);
    }
}

/// What the characters of a constant are.
proof fn lemma_const_chars(v: Complex64)
    requires
        const_readable(v),
    ensures
        const_text(v).len() > 0,
        is_digit(const_text(v)[0]) || const_text(v)[0] == '-',
        forall|i: int|
            0 <= i < const_text(v).len() ==> is_number_char(#[trigger] const_text(v)[i])
                && !is_blank(const_text(v)[i]),
{
    let t = const_text(v);
    if is_zero(v.im) {
        lemma_number_chars(t);
    } else {
        let (re, im) = (plain_text(v.re), plain_text(v.im));
        assert(holds(t, 0, t));
        lemma_const_parts(t, 0, v);
        lemma_number_chars(re);
        lemma_number_chars(im);
        assert(t[0int + 0] == re[0]);
        assert forall|i: int| 0 <= i < t.len() implies is_number_char(#[trigger] t[i]) && !is_blank(
            t[i],
        ) by {
            if i < re.len() {
                assert(t[0 + i] == re[i]);
            } else if re.len() + 1 <= i < re.len() + 1 + im.len() {
                let j = i - re.len() - 1;
                assert(t[re.len() + 1 + j] == im[j]);
            }
        }
    }
}

/// What has no blanks is not trimmed.
pub proof fn lemma_untrimmed(t: Seq<char>)
    requires
        t.len() > 0,
        !is_blank(t[0]),
        !is_blank(t[t.len() - 1]),
    ensures
        trim(t) == t,
{
    assert(skip_blanks(t, 0) == 0);
    assert(blanks_start(t, t.len() as int) == t.len());
    assert(t.subrange(0, t.len() as int) =~= t);
}

/// A constant that stands in a text is read from it as the text of a subexpression.
proof fn lemma_node_const(s: Seq<char>, p: int, v: Complex64)
    requires
        const_readable(v),
        holds(s, p, const_text(v)),
        ends_at(s, p + const_text(v).len()),
    ensures
        read_node(s, p) == Ok::<(Expr, int), Seq<char>>((Expr::Const(v), p + const_text(v).len())),
{
    let t = const_text(v);
    lemma_const_chars(v);
    lemma_const_value(v);
    assert(s[p + 0] == t[0]);
    assert(!is_blank(t[0]) && !is_blank(t[t.len() - 1]));
    assert(skip_blanks(s, p) == p);
    lemma_token_at(s, p, t, 0);
    lemma_held(s, p, t);
    lemma_untrimmed(t);
    assert(read_token(s, p) == Ok::<(Expr, int), Seq<char>>((Expr::Const(v), p + t.len())));
}

/// The primitive is read when its operands are.
proof fn lemma_node_prim(s: Seq<char>, p: int, a: Expr, b: Expr)
    requires
        holds(s, p, eml_text(Expr::Prim(Box::new(a), Box::new(b)))),
        ({
            let p2 = p + 4 + eml_text(a).len();
            &&& read_node(s, p + 4) == Ok::<(Expr, int), Seq<char>>((a, p2 as int))
            &&& read_node(s, p2 + 1) == Ok::<(Expr, int), Seq<char>>((b, p2 + 1 + eml_text(b).len()))
        }),
    ensures
        ({
            let e = Expr::Prim(Box::new(a), Box::new(b));
            read_node(s, p) == Ok::<(Expr, int), Seq<char>>((e, p + eml_text(e).len()))
        }),
{
    let e = Expr::Prim(Box::new(a), Box::new(b));
    let end = p + eml_text(e).len();
    let p2 = p + 4 + eml_text(a).len();
    let p4 = p2 + 1 + eml_text(b).len();
    lemma_prim_parts(s, p, a, b);
    assert(skip_blanks(s, p + 3) == p + 3);
    assert(skip_blanks(s, p2 as int) == p2);
    assert(skip_blanks(s, p4 as int) == p4);
    assert(read_pair(s, p + 3) == Ok::<(Expr, int), Seq<char>>((e, end as int)));
    lemma_eml_chars();
    assert(s[p + 0] == "eml"@[0]);
    assert(skip_blanks(s, p) == p);
    lemma_name_at(s, p, "eml"@, 0);
}

/// What the characters of the name of the primitive are.
proof fn lemma_eml_chars()
    ensures
        "eml"@.len() == 3,
        "eml"@[0] == 'e',
        lower_text("eml"@) == "eml"@,
        forall|i: int| 0 <= i < 3 ==> is_name_char(#[trigger] "eml"@[i]),
{
    reveal_strlit("eml");
    assert(lower_text("eml"@) =~= "eml"@);
}

/// An expression that stands in a text is read from it as the text of a subexpression.
proof fn lemma_read_node(s: Seq<char>, p: int, e: Expr)
    requires
        readable(e),
        holds(s, p, eml_text(e)),
        ends_at(s, p + eml_text(e).len()),
    ensures
        read_node(s, p) == Ok::<(Expr, int), Seq<char>>((e, p + eml_text(e).len())),
    decreases e,
{
    match e {
        Expr::Var => {
            reveal_strlit("x");
            assert(s[p + 0] == "x"@[0]);
            assert(skip_blanks(s, p) == p);
            lemma_name_at(s, p, "x"@, 0);
            assert(lower_text(s.subrange(p, p + 1)) =~= "x"@);
            lemma_eml_chars();
        },
        Expr::Const(v) => {
            lemma_node_const(s, p, v);
        },
        Expr::Prim(a, b) => {
            let p2 = p + 4 + eml_text(*a).len();
            lemma_prim_parts(s, p, *a, *b);
            lemma_read_node(s, p + 4, *a);
            lemma_read_node(s, p2 + 1, *b);
            lemma_node_prim(s, p, *a, *b);
        },
    }
}

/// Reading the text of an expression as the text of a subexpression gives the expression back, as
/// far as the numbers in the text are read as they were.
pub proof fn law_text_is_read_as_subtree(e: Expr)
    requires
        readable(e),
    ensures
        read_subtree(eml_text(e)) == Ok::<Expr, Seq<char>>(e),
{
    let s = eml_text(e);
    let n = s.len() as int;
    lemma_read_node(s, 0, e);
    lemma_ends_solid(e);
    lemma_untrimmed(s);
    assert(skip_blanks(s, n) == n);
}

/// No blank stands at the ends of the text of an expression.
proof fn lemma_ends_solid(e: Expr)
    requires
        readable(e),
    ensures
        eml_text(e).len() > 0,
        !is_blank(eml_text(e)[0]),
        !is_blank(eml_text(e)[eml_text(e).len() - 1]),
{
    let s = eml_text(e);
    reveal_strlit("x");
    match e {
        Expr::Var => {},
        Expr::Const(v) => {
            lemma_const_chars(v);
            assert(!is_blank(const_text(v)[0]));
            assert(!is_blank(const_text(v)[const_text(v).len() - 1]));
        },
        Expr::Prim(a, b) => {
            assert(holds(s, 0, s));
            lemma_prim_parts(s, 0, *a, *b);
            reveal_strlit("eml");
            assert(s[0int + 0] == "eml"@[0]);
        },
    }
}

/// A value that the direct evaluation of a constant expression gives is a value that the expression
/// may have at any place.
pub proof fn law_direct_value_is_a_value(
    nodes: Seq<Node>,
    values: Map<u32, Complex64>,
    id: u32,
    x: u64,
)
    requires
        arena_ok(nodes),
        id < nodes.len(),
        values_follow(nodes, Map::empty(), values),
        values.contains_key(id),
    ensures
        may_have_value(tree(nodes, id as int), x, values[id]),
    decreases id,
{
    let n = nodes[id as int];
    assert(node_ok(nodes, id as int));
    assert(value_step(nodes, values, id));
    if n.op == Op::Prim {
        law_direct_value_is_a_value(nodes, values, n.a, x);
        law_direct_value_is_a_value(nodes, values, n.b, x);
        assert(prim_outcome(values[n.a], values[n.b], values[id]));
    }
}

} // verus!
