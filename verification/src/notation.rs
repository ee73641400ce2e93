//! The notation of expressions, and that it is read as it is meant: whatever is written by the rules
//! of the notation is parsed as the expression that it stands for, and nothing else is parsed.

use vstd::prelude::*;

use crate::complex::Complex64;
use crate::expr::Expr;
use crate::float::negated;
use crate::parser::{
    float_end, float_value, is_ascii, is_letter, is_name_char, law_blanks_are_skipped,
    lemma_float_end_piece, lemma_name_end, name_end, named_constant, names_primitive,
    names_variable, read_all, read_expr, read_number, read_operands, read_term,
};
use crate::roundtrip::{
    holds, is_decimal, lemma_held, lemma_holds_part, lemma_name_at, lemma_number_chars, lemma_term,
    lemma_untrimmed,
};
use crate::subtree::{lower_text, number_value, read_subtree};
use crate::text::{at, is_blank, is_digit, lemma_skip_blanks, skip_blanks};

verus! {

/// A way to write an expression.
pub enum Written {
    /// A name.
    Name(Seq<char>),
    /// A decimal number.
    Real(Seq<char>),
    /// Such a number with the imaginary unit behind it.
    Imaginary(Seq<char>, char),
    /// A real number, blanks, a minus sign or a plus sign, blanks, and an imaginary number.
    Complex(Seq<char>, Seq<char>, bool, Seq<char>, Seq<char>, char),
    /// The primitive, under one of its names, blanks, and two operands in brackets.
    Apply(Seq<char>, Seq<char>, Box<Written>, Box<Written>),
    /// Something with blanks before and behind it.
    Spaced(Seq<char>, Box<Written>, Seq<char>),
}

/// The names, in small letters or capitals.
pub open spec fn name_of_variable(w: Seq<char>) -> bool {
    w == seq!['x'] || w == seq!['X']
}

pub open spec fn name_of_unit(w: Seq<char>) -> bool {
    w == seq!['i'] || w == seq!['I']
}

pub open spec fn name_of_pi(w: Seq<char>) -> bool {
    w == seq!['p', 'i'] || w == seq!['P', 'I'] || w == seq!['P', 'i']
}

pub open spec fn name_of_euler(w: Seq<char>) -> bool {
    w == seq!['e'] || w == seq!['E']
}

pub open spec fn name_of_primitive(w: Seq<char>) -> bool {
    w == seq!['f'] || w == seq!['F'] || w == seq!['e', 'm', 'l'] || w == seq!['E', 'M', 'L']
}

/// The imaginary unit behind a number.
pub open spec fn is_unit(c: char) -> bool {
    c == 'i' || c == 'I'
}

/// Blanks in ASCII.
pub open spec fn all_blank(t: Seq<char>) -> bool {
    forall|i: int| 0 <= i < t.len() ==> is_blank(#[trigger] t[i]) && is_ascii(t[i])
}

/// The names are names, and the numbers are decimal numbers.
pub open spec fn is_proper(w: Written) -> bool
    decreases w,
{
    match w {
        Written::Name(t) => name_of_variable(t) || name_of_unit(t) || name_of_pi(t)
            || name_of_euler(t),
        Written::Real(t) => is_decimal(t),
        Written::Imaginary(t, c) => is_decimal(t) && is_unit(c),
        Written::Complex(t, before, _, after, u, c) => is_decimal(t) && all_blank(before)
            && all_blank(after) && is_decimal(u) && is_unit(c),
        Written::Apply(f, gap, a, b) => name_of_primitive(f) && all_blank(gap) && is_proper(*a)
            && is_proper(*b),
        Written::Spaced(before, a, after) => all_blank(before) && all_blank(after) && is_proper(*a),
    }
}

/// The text of what is written.
pub open spec fn text_of(w: Written) -> Seq<char>
    decreases w,
{
    match w {
        Written::Name(t) => t,
        Written::Real(t) => t,
        Written::Imaginary(t, c) => t + seq![c],
        Written::Complex(t, before, minus, after, u, c) => t + before + (seq![
            if minus {
                '-'
            } else {
                '+'
            },
        ] + after + (u + seq![c])),
        Written::Apply(f, gap, a, b) => f + gap + (seq!['('] + text_of(*a) + seq![',']) + (text_of(
            *b,
        ) + seq![')']),
        Written::Spaced(before, a, after) => before + text_of(*a) + after,
    }
}

/// The binary64 number that a decimal number stands for.
pub open spec fn bits_of(t: Seq<char>) -> u64 {
    float_value(t)->0
}

/// What is meant by it. The constants are `1i`, `pi` and `e`, as binary64 numbers.
pub open spec fn meaning(w: Written) -> Expr
    decreases w,
{
    match w {
        Written::Name(t) => if name_of_variable(t) {
            Expr::Var
        } else if name_of_unit(t) {
            Expr::Const(Complex64 { re: 0, im: 0x3ff0_0000_0000_0000 })
        } else if name_of_pi(t) {
            Expr::Const(Complex64 { re: 0x4009_21fb_5444_2d18, im: 0 })
        } else {
            Expr::Const(Complex64 { re: 0x4005_bf0a_8b14_5769, im: 0 })
        },
        Written::Real(t) => Expr::Const(Complex64 { re: bits_of(t), im: 0 }),
        Written::Imaginary(t, _) => Expr::Const(Complex64 { re: 0, im: bits_of(t) }),
        Written::Complex(t, _, minus, _, u, _) => Expr::Const(
            Complex64 {
                re: bits_of(t),
                im: if minus {
                    negated(bits_of(u))
                } else {
                    bits_of(u)
                },
            },
        ),
        Written::Apply(_, _, a, b) => Expr::Prim(Box::new(meaning(*a)), Box::new(meaning(*b))),
        Written::Spaced(_, a, _) => meaning(*a),
    }
}

/// What stands at `q` ends an expression: blanks, and the end of the text, a comma or a closing
/// bracket.
spec fn closes(s: Seq<char>, q: int) -> bool {
    let k = skip_blanks(s, q);
    &&& 0 <= q <= s.len()
    &&& k == s.len() || (0 <= k < s.len() && (s[k] == ',' || s[k] == ')'))
    &&& q < s.len() ==> is_ascii(s[q])
}

/// Blanks are passed over.
proof fn lemma_blanks(s: Seq<char>, p: int, t: Seq<char>, i: int)
    requires
        holds(s, p, t),
        all_blank(t),
        0 <= i <= t.len(),
    ensures
        skip_blanks(s, p + i) == skip_blanks(s, p + t.len()),
        p + t.len() < s.len() ==> read_expr(s, p + i) == read_expr(s, p + t.len()),
    decreases t.len() - i,
{
    if i < t.len() {
        assert(s[p + i] == t[i]);
        lemma_blanks(s, p, t, i + 1);
        law_blanks_are_skipped(s, p + i, ',');
    }
}

/// What the names are to the parser.
proof fn lemma_names(w: Seq<char>)
    ensures
        names_variable(w) == name_of_variable(w),
        named_constant(w) == (if name_of_unit(w) {
            Some(Complex64 { re: 0, im: 0x3ff0_0000_0000_0000 })
        } else if name_of_pi(w) {
            Some(Complex64 { re: 0x4009_21fb_5444_2d18, im: 0 })
        } else if name_of_euler(w) {
            Some(Complex64 { re: 0x4005_bf0a_8b14_5769, im: 0 })
        } else {
            None
        }),
        names_primitive(w) == name_of_primitive(w),
{
    reveal_strlit("x");
    reveal_strlit("X");
    reveal_strlit("i");
    reveal_strlit("I");
    reveal_strlit("pi");
    reveal_strlit("PI");
    reveal_strlit("Pi");
    reveal_strlit("e");
    reveal_strlit("E");
    reveal_strlit("f");
    reveal_strlit("F");
    reveal_strlit("eml");
    reveal_strlit("EML");
    assert("x"@ =~= seq!['x'] && "X"@ =~= seq!['X'] && "i"@ =~= seq!['i'] && "I"@ =~= seq!['I']);
    assert("pi"@ =~= seq!['p', 'i'] && "PI"@ =~= seq!['P', 'I'] && "Pi"@ =~= seq!['P', 'i']);
    assert("e"@ =~= seq!['e'] && "E"@ =~= seq!['E'] && "f"@ =~= seq!['f'] && "F"@ =~= seq!['F']);
    assert("eml"@ =~= seq!['e', 'm', 'l'] && "EML"@ =~= seq!['E', 'M', 'L']);
}

/// The names are made of letters.
proof fn lemma_name_letters(w: Seq<char>)
    requires
        name_of_variable(w) || name_of_unit(w) || name_of_pi(w) || name_of_euler(w)
            || name_of_primitive(w),
    ensures
        w.len() > 0,
        forall|i: int|
            0 <= i < w.len() ==> is_letter(#[trigger] w[i]) && is_name_char(w[i]) && !is_blank(w[i])
                && !is_digit(w[i]),
        w[0] != '-' && w[0] != '.',
{
}

/// A name that stands in a text is found there.
proof fn lemma_name_found(s: Seq<char>, p: int, w: Seq<char>)
    requires
        holds(s, p, w),
        name_of_variable(w) || name_of_unit(w) || name_of_pi(w) || name_of_euler(w)
            || name_of_primitive(w),
        p + w.len() < s.len() ==> !is_name_char(s[p + w.len()]),
    ensures
        skip_blanks(s, p) == p,
        p < s.len(),
        is_letter(s[p]) && !is_digit(s[p]) && s[p] != '-' && s[p] != '.',
        name_end(s, p) == p + w.len(),
        s.subrange(p, p + w.len()) == w,
{
    lemma_name_letters(w);
    assert(s[p + 0] == w[0]);
    lemma_name_at(s, p, w, 0);
    lemma_held(s, p, w);
}

/// Numbers that stand in a text are read from it.
proof fn lemma_number_found(s: Seq<char>, p: int, w: Written) -> (end: int)
    requires
        is_proper(w),
        w is Real || w is Imaginary || w is Complex,
        holds(s, p, text_of(w)),
        closes(s, p + text_of(w).len()),
    ensures
        read_expr(s, p) == Ok::<(Expr, int), (Seq<char>, int)>((meaning(w), end)),
        p < end <= s.len(),
        skip_blanks(s, end) == skip_blanks(s, p + text_of(w).len()),
        skip_blanks(s, p) == p,
{
    let q = p + text_of(w).len();
    lemma_skip_blanks(s, q);
    let k = skip_blanks(s, q);
    assert(skip_blanks(s, k) == k);
    match w {
        Written::Real(t) => {
            lemma_number_chars(t);
            assert(s[p + 0] == t[0]);
            lemma_term(s, p, t);
            k
        },
        Written::Imaginary(t, c) => {
            lemma_number_chars(t);
            assert(t + seq![c] =~= t + seq![c] + Seq::empty());
            lemma_holds_part(s, p, t, seq![c], Seq::empty());
            assert(s[p + 0] == t[0]);
            assert(s[p + t.len() + 0] == c);
            lemma_term(s, p, t);
            k
        },
        Written::Complex(t, before, minus, after, u, c) => {
            let sign = if minus {
                '-'
            } else {
                '+'
            };
            let tail = seq![sign] + after + (u + seq![c]);
            lemma_number_chars(t);
            lemma_number_chars(u);
            lemma_holds_part(s, p, t, before, tail);
            let end_t = p + t.len();
            let mid = end_t + before.len();
            lemma_holds_part(s, mid, seq![sign], after, u + seq![c]);
            let from = mid + 1 + after.len();
            assert(u + seq![c] =~= u + seq![c] + Seq::empty());
            lemma_holds_part(s, from, u, seq![c], Seq::empty());
            assert(s[p + 0] == t[0]);
            assert(s[mid + 0] == sign);
            assert(s[from + 0] == u[0]);
            assert(s[from + u.len() + 0] == c);
            if before.len() > 0 {
                assert(s[end_t + 0] == before[0]);
            }
            lemma_blanks(s, end_t, before, 0);
            lemma_blanks(s, mid + 1, after, 0);
            assert(skip_blanks(s, mid) == mid);
            assert(skip_blanks(s, from) == from);
            lemma_term(s, p, t);
            lemma_term(s, from, u);
            q as int
        },
        _ => q as int,
    }
}

/// Where the parts of an application stand.
proof fn lemma_apply_parts(
    s: Seq<char>,
    p: int,
    f: Seq<char>,
    gap: Seq<char>,
    x: Seq<char>,
    y: Seq<char>,
)
    requires
        holds(s, p, f + gap + (seq!['('] + x + seq![',']) + (y + seq![')'])),
    ensures
        ({
            let open = p + f.len() + gap.len();
            let comma = open + 1 + x.len();
            let shut = comma + 1 + y.len();
            &&& holds(s, p, f)
            &&& holds(s, p + f.len(), gap)
            &&& holds(s, open + 1, x)
            &&& holds(s, comma + 1, y)
            &&& at(s, open, '(') && at(s, comma, ',') && at(s, shut, ')')
            &&& skip_blanks(s, open) == open
            &&& skip_blanks(s, comma) == comma
            &&& skip_blanks(s, shut) == shut
        }),
{
    let open = p + f.len() + gap.len();
    let comma = open + 1 + x.len();
    let shut = comma + 1 + y.len();
    lemma_holds_part(s, p, f + gap, seq!['('] + x + seq![','], y + seq![')']);
    assert(f + gap =~= f + gap + Seq::empty());
    lemma_holds_part(s, p, f, gap, Seq::empty());
    lemma_holds_part(s, open, seq!['('], x, seq![',']);
    assert(y + seq![')'] =~= y + seq![')'] + Seq::empty());
    lemma_holds_part(s, comma + 1, y, seq![')'], Seq::empty());
    assert(s[open + 0] == '(');
    assert(s[comma + 0] == ',');
    assert(s[shut + 0] == ')');
}

/// An application is read when its operands are.
proof fn lemma_apply_read(
    s: Seq<char>,
    p: int,
    f: Seq<char>,
    gap: Seq<char>,
    one: (Expr, int),
    two: (Expr, int),
)
    requires
        name_of_primitive(f),
        all_blank(gap),
        holds(s, p, f),
        holds(s, p + f.len(), gap),
        ({
            let open = p + f.len() + gap.len();
            let comma = skip_blanks(s, one.1);
            let shut = skip_blanks(s, two.1);
            &&& at(s, open, '(') && at(s, comma, ',') && at(s, shut, ')')
            &&& read_expr(s, open + 1) == Ok::<(Expr, int), (Seq<char>, int)>(one)
            &&& read_expr(s, comma + 1) == Ok::<(Expr, int), (Seq<char>, int)>(two)
            &&& open < one.1 <= s.len()
        }),
    ensures
        read_expr(s, p) == Ok::<(Expr, int), (Seq<char>, int)>(
            (Expr::Prim(Box::new(one.0), Box::new(two.0)), skip_blanks(s, two.1) + 1),
        ),
{
    let open = p + f.len() + gap.len();
    lemma_names(f);
    lemma_name_letters(f);
    if gap.len() > 0 {
        assert(s[p + f.len() + 0] == gap[0]);
    }
    lemma_name_found(s, p, f);
    lemma_blanks(s, p + f.len(), gap, 0);
    assert(skip_blanks(s, open) == open);
    lemma_skip_blanks(s, one.1);
    assert(read_operands(s, open) == Ok::<(Expr, int), (Seq<char>, int)>(
        (Expr::Prim(Box::new(one.0), Box::new(two.0)), skip_blanks(s, two.1) + 1),
    ));
}

/// What is written in a text is read from it.
proof fn lemma_written(s: Seq<char>, p: int, w: Written) -> (end: int)
    requires
        is_proper(w),
        holds(s, p, text_of(w)),
        closes(s, p + text_of(w).len()),
    ensures
        read_expr(s, p) == Ok::<(Expr, int), (Seq<char>, int)>((meaning(w), end)),
        text_of(w).len() > 0,
        p < end <= s.len(),
        skip_blanks(s, end) == skip_blanks(s, p + text_of(w).len()),
    decreases w,
{
    let q = p + text_of(w).len();
    let k = skip_blanks(s, q);
    lemma_skip_blanks(s, q);
    assert(skip_blanks(s, k) == k);
    assert(q < s.len() ==> !is_name_char(s[q]));
    match w {
        Written::Name(t) => {
            lemma_names(t);
            lemma_name_found(s, p, t);
            lemma_name_letters(t);
            k
        },
        Written::Apply(f, gap, a, b) => {
            let (x, y) = (text_of(*a), text_of(*b));
            let open = p + f.len() + gap.len();
            let comma = open + 1 + x.len();
            let shut = comma + 1 + y.len();
            lemma_apply_parts(s, p, f, gap, x, y);
            let one = lemma_written(s, open + 1, *a);
            let two = lemma_written(s, comma + 1, *b);
            lemma_apply_read(s, p, f, gap, (meaning(*a), one), (meaning(*b), two));
            assert(q == shut + 1);
            q as int
        },
        Written::Spaced(before, a, after) => {
            let from = p + before.len();
            lemma_holds_part(s, p, before, text_of(*a), after);
            lemma_blanks(s, p, before, 0);
            let end_a = from + text_of(*a).len();
            lemma_blanks(s, end_a, after, 0);
            assert(end_a < s.len() ==> is_ascii(s[end_a])) by {
                if after.len() > 0 {
                    assert(s[end_a + 0] == after[0]);
                }
            }
            lemma_written(s, from, *a)
        },
        _ => lemma_number_found(s, p, w),
    }
}

/// Whatever is written by the rules of the notation is parsed as what is meant by it: names, real,
/// imaginary and complex numbers, the primitive under each of its names, and blanks around any of
/// these.
pub proof fn law_notation_is_parsed(w: Written)
    requires
        is_proper(w),
    ensures
        read_all(text_of(w)) == Ok::<Expr, (Seq<char>, int)>(meaning(w)),
{
    let s = text_of(w);
    let end = lemma_written(s, 0, w);
}

/// What is cut out of an ASCII text and skipped is blank.
proof fn lemma_skipped(s: Seq<char>, p: int)
    requires
        0 <= p <= s.len(),
        forall|i: int| 0 <= i < s.len() ==> is_ascii(#[trigger] s[i]),
    ensures
        p <= skip_blanks(s, p) <= s.len(),
        all_blank(s.subrange(p, skip_blanks(s, p))),
        skip_blanks(s, skip_blanks(s, p)) == skip_blanks(s, p),
    decreases s.len() - p,
{
    if p < s.len() && is_blank(s[p]) {
        lemma_skipped(s, p + 1);
        let q = skip_blanks(s, p);
        let (t, rest) = (s.subrange(p, q), s.subrange(p + 1, q));
        assert forall|i: int| 0 <= i < t.len() implies is_blank(#[trigger] t[i]) && is_ascii(
            t[i],
        ) by {
            if i > 0 {
                assert(t[i] == rest[i - 1]);
            }
        }
    }
}

/// A number that was read is a decimal number.
proof fn lemma_term_written(s: Seq<char>, p: int) -> (t: Seq<char>)
    requires
        0 <= p <= s.len(),
        read_term(s, p) is Ok,
    ensures
        is_decimal(t),
        t.len() > 0,
        p + t.len() <= s.len(),
        t == s.subrange(p, p + t.len()),
        ({
            let ((v, unit), end) = read_term(s, p)->Ok_0;
            &&& v == bits_of(t)
            &&& end <= s.len()
            &&& unit ==> end == p + t.len() + 1 && is_unit(s[p + t.len()])
            &&& !unit ==> end == p + t.len()
        }),
{
    lemma_float_end_piece(s, p);
    let t = s.subrange(p, float_end(s, p));
    lemma_number_chars(t);
    t
}

/// A number that was read is written by the rules of the notation, with blanks behind it.
proof fn lemma_number_written(s: Seq<char>, p: int) -> (w: Written)
    requires
        0 <= p <= s.len(),
        forall|i: int| 0 <= i < s.len() ==> is_ascii(#[trigger] s[i]),
        read_number(s, p) is Ok,
    ensures
        is_proper(w),
        ({
            let (v, end) = read_number(s, p)->Ok_0;
            p < end <= s.len() && text_of(w) == s.subrange(p, end) && meaning(w) == Expr::Const(v)
        }),
{
    let t = lemma_term_written(s, p);
    let ((v, unit), end) = read_term(s, p)->Ok_0;
    let sign = skip_blanks(s, end);
    let blanks = s.subrange(end, sign);
    lemma_skipped(s, end);
    let none = Seq::<char>::empty();
    reveal_with_fuel(is_proper, 2);
    reveal_with_fuel(meaning, 2);
    if unit {
        let c = s[p + t.len()];
        let core = Written::Imaginary(t, c);
        let w = Written::Spaced(none, Box::new(core), blanks);
        assert(text_of(core) =~= s.subrange(p, end));
        assert(text_of(w) =~= s.subrange(p, sign));
        w
    } else if at(s, sign, '+') || at(s, sign, '-') {
        let from = skip_blanks(s, sign + 1);
        lemma_skipped(s, sign + 1);
        let u = lemma_term_written(s, from);
        let c = s[from + u.len()];
        let gap = s.subrange(sign + 1, from);
        let w = Written::Complex(t, blanks, at(s, sign, '-'), gap, u, c);
        assert(text_of(w) =~= s.subrange(p, from + u.len() + 1));
        w
    } else {
        let core = Written::Real(t);
        let w = Written::Spaced(none, Box::new(core), blanks);
        assert(text_of(core) == t);
        assert(text_of(w) =~= s.subrange(p, sign));
        w
    }
}

/// What was read is written by the rules of the notation.
proof fn lemma_read_written(s: Seq<char>, p: int) -> (w: Written)
    requires
        0 <= p <= s.len(),
        forall|i: int| 0 <= i < s.len() ==> is_ascii(#[trigger] s[i]),
        read_expr(s, p) is Ok,
    ensures
        is_proper(w),
        ({
            let (e, end) = read_expr(s, p)->Ok_0;
            p < end <= s.len() && text_of(w) == s.subrange(p, end) && meaning(w) == e
        }),
    decreases s.len() - p, 1nat,
{
    let q = skip_blanks(s, p);
    let lead = s.subrange(p, q);
    let none = Seq::<char>::empty();
    reveal_with_fuel(is_proper, 2);
    reveal_with_fuel(meaning, 2);
    lemma_skipped(s, p);
    if is_digit(s[q]) || s[q] == '-' || s[q] == '.' {
        let core = lemma_number_written(s, q);
        let end = (read_number(s, q)->Ok_0).1;
        let w = Written::Spaced(lead, Box::new(core), none);
        assert(text_of(w) =~= s.subrange(p, end));
        w
    } else {
        let k = name_end(s, q);
        let name = s.subrange(q, k);
        let after = skip_blanks(s, k);
        lemma_name_end(s, q);
        lemma_names(name);
        lemma_skipped(s, k);
        let gap = s.subrange(k, after);
        if names_variable(name) || named_constant(name) is Some {
            let core = Written::Name(name);
            let w = Written::Spaced(lead, Box::new(core), gap);
            lemma_name_letters(name);
            assert(text_of(core) == name);
            assert(text_of(w) =~= s.subrange(p, after));
            w
        } else {
            lemma_name_letters(name);
            let (a, b) = lemma_operands_written(s, after);
            let end = (read_operands(s, after)->Ok_0).1;
            let inner = seq!['('] + text_of(a) + seq![','] + text_of(b) + seq![')'];
            let core = Written::Apply(name, gap, Box::new(a), Box::new(b));
            let w = Written::Spaced(lead, Box::new(core), none);
            assert(text_of(core) =~= name + gap + inner);
            assert(text_of(w) =~= lead + name + gap + inner);
            assert(lead + name + gap + s.subrange(after, end) =~= s.subrange(p, end));
            w
        }
    }
}

/// Operands that were read are written by the rules of the notation.
proof fn lemma_operands_written(s: Seq<char>, p: int) -> (ab: (Written, Written))
    requires
        0 <= p <= s.len(),
        forall|i: int| 0 <= i < s.len() ==> is_ascii(#[trigger] s[i]),
        read_operands(s, p) is Ok,
        skip_blanks(s, p) == p,
    ensures
        is_proper(ab.0),
        is_proper(ab.1),
        ({
            let (e, end) = read_operands(s, p)->Ok_0;
            &&& p < end <= s.len()
            &&& s.subrange(p, end) == seq!['('] + text_of(ab.0) + seq![','] + text_of(ab.1)
                + seq![')']
            &&& e == Expr::Prim(Box::new(meaning(ab.0)), Box::new(meaning(ab.1)))
        }),
    decreases s.len() - p, 0nat,
{
    let none = Seq::<char>::empty();
    let a = lemma_read_written(s, p + 1);
    let p2 = (read_expr(s, p + 1)->Ok_0).1;
    let comma = skip_blanks(s, p2);
    lemma_skipped(s, p2);
    let wide_a = Written::Spaced(none, Box::new(a), s.subrange(p2, comma));
    assert(text_of(wide_a) =~= s.subrange(p + 1, comma));
    let b = lemma_read_written(s, comma + 1);
    let p4 = (read_expr(s, comma + 1)->Ok_0).1;
    let shut = skip_blanks(s, p4);
    lemma_skipped(s, p4);
    let wide_b = Written::Spaced(none, Box::new(b), s.subrange(p4, shut));
    assert(text_of(wide_b) =~= s.subrange(comma + 1, shut));
    assert(s.subrange(p, shut + 1) =~= seq!['('] + text_of(wide_a) + seq![','] + text_of(wide_b)
        + seq![')']);
    (wide_a, wide_b)
}

/// Nothing else is parsed: a text in ASCII that is parsed is written by the rules of the notation,
/// and the expression is what is meant by it. So a name that is none of the names, a bracket or a
/// comma too many or too few, a number with a point but no digit on either side of it, or anything
/// behind the expression is refused.
pub proof fn law_parsed_is_notation(s: Seq<char>)
    requires
        forall|i: int| 0 <= i < s.len() ==> is_ascii(#[trigger] s[i]),
        read_all(s) is Ok,
    ensures
        exists|w: Written|
            is_proper(w) && #[trigger] text_of(w) == s && read_all(s) == Ok::<
                Expr,
                (Seq<char>, int),
            >(meaning(w)),
{
    let core = lemma_read_written(s, 0);
    let end = (read_expr(s, 0)->Ok_0).1;
    lemma_skipped(s, end);
    let n = s.len() as int;
    let w = Written::Spaced(Seq::empty(), Box::new(core), s.subrange(end, n));
    assert(text_of(w) =~= s);
}

/// `w` is the word that `small` spells in small letters, whatever the case of its own.
pub open spec fn spells(w: Seq<char>, small: Seq<char>) -> bool {
    w.len() == small.len() && forall|i: int|
        0 <= i < w.len() ==> #[trigger] w[i] == small[i] || w[i] as int + 32 == small[i] as int
}

proof fn lemma_spells(w: Seq<char>, small: Seq<char>)
    requires
        forall|i: int|
            0 <= i < small.len() ==> 'a' <= #[trigger] small[i] <= 'z' || small[i] == '+'
                || small[i] == '-',
        forall|i: int|
            0 <= i < w.len() ==> 'a' <= #[trigger] w[i] <= 'z' || 'A' <= w[i] <= 'Z' || w[i] == '+'
                || w[i] == '-',
    ensures
        spells(w, small) <==> lower_text(w) == small,
{
    if spells(w, small) {
        assert(lower_text(w) =~= small);
    }
    if lower_text(w) == small {
        assert forall|i: int| 0 <= i < w.len() implies #[trigger] w[i] == small[i] || w[i] as int
            + 32 == small[i] as int by {
            assert(lower_text(w)[i] == small[i]);
        }
    }
}

/// In the text of a subexpression the names may be written in letters of either case. A word of
/// letters alone that is none of them is refused, and so is the primitive without operands.
pub proof fn law_subtree_names(w: Seq<char>)
    requires
        w.len() > 0,
        forall|i: int| 0 <= i < w.len() ==> 'a' <= #[trigger] w[i] <= 'z' || 'A' <= w[i] <= 'Z',
    ensures
        spells(w, seq!['x']) ==> read_subtree(w) == Ok::<Expr, Seq<char>>(Expr::Var),
        spells(w, seq!['i']) ==> read_subtree(w) == Ok::<Expr, Seq<char>>(
            Expr::Const(Complex64 { re: 0, im: 0x3ff0_0000_0000_0000 }),
        ),
        spells(w, seq!['e']) ==> read_subtree(w) == Ok::<Expr, Seq<char>>(
            Expr::Const(Complex64 { re: 0x4005_bf0a_8b14_5769, im: 0 }),
        ),
        spells(w, seq!['p', 'i']) ==> read_subtree(w) == Ok::<Expr, Seq<char>>(
            Expr::Const(Complex64 { re: 0x4009_21fb_5444_2d18, im: 0 }),
        ),
        read_subtree(w) is Ok ==> spells(w, seq!['x']) || spells(w, seq!['i']) || spells(
            w,
            seq!['e'],
        ) || spells(w, seq!['p', 'i']),
{
    let n = w.len() as int;
    lemma_untrimmed(w);
    assert(holds(w, 0, w));
    lemma_name_at(w, 0, w, 0);
    assert(w.subrange(0, n) =~= w);
    assert(skip_blanks(w, 0) == 0);
    assert(skip_blanks(w, n) == n);
    lemma_spells(w, seq!['x']);
    lemma_spells(w, seq!['i']);
    lemma_spells(w, seq!['e']);
    lemma_spells(w, seq!['p', 'i']);
    reveal_strlit("x");
    reveal_strlit("i");
    reveal_strlit("e");
    reveal_strlit("pi");
    reveal_strlit("eml");
    assert("x"@ =~= seq!['x'] && "i"@ =~= seq!['i'] && "e"@ =~= seq!['e'] && "pi"@ =~= seq![
        'p',
        'i',
    ]);
}

/// The infinities are written as words, in letters of either case and with a sign or without one.
pub proof fn law_infinities(w: Seq<char>)
    requires
        spells(w, seq!['i', 'n', 'f']) || spells(w, seq!['+', 'i', 'n', 'f']) || spells(
            w,
            seq!['-', 'i', 'n', 'f'],
        ),
        forall|i: int|
            0 <= i < w.len() ==> 'a' <= #[trigger] w[i] <= 'z' || 'A' <= w[i] <= 'Z' || w[i] == '+'
                || w[i] == '-',
    ensures
        number_value(w) == Ok::<Complex64, Seq<char>>(
            Complex64 {
                re: if w[0] == '-' {
                    0xfff0_0000_0000_0000
                } else {
                    0x7ff0_0000_0000_0000
                },
                im: 0,
            },
        ),
{
    lemma_spells(w, seq!['i', 'n', 'f']);
    lemma_spells(w, seq!['+', 'i', 'n', 'f']);
    lemma_spells(w, seq!['-', 'i', 'n', 'f']);
    reveal_strlit("inf");
    reveal_strlit("+inf");
    reveal_strlit("-inf");
    assert("inf"@ =~= seq!['i', 'n', 'f'] && "+inf"@ =~= seq!['+', 'i', 'n', 'f'] && "-inf"@
        =~= seq!['-', 'i', 'n', 'f']);
}

} // verus!
