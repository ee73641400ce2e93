//! A recursive-descent parser for expressions written as text.
//!
//! ```text
//! expr    := "x"
//!          | "i"                      (the imaginary unit)
//!          | "pi" | "e"               (the real constants)
//!          | number
//!          | ("f" | "eml") "(" expr "," expr ")"
//!
//! number  := term [("+" | "-") term]  (the second term imaginary, the first not)
//! term    := ["-"] digits ["." digits] ["i"]
//! ```
//!
//! Blanks may stand before and after every name, number and punctuation mark. `f` and `eml` both
//! name the primitive, and names may be written in capitals. Examples: `x`, `-2.5`, `1+2i`,
//! `f(f(x,1), i)`, `eml(pi, f(x, 1))`.

use num_complex::Complex64 as Pair;
use vstd::prelude::*;

use crate::arena::{
    const_step, consts_apart, extends, intern_run, interned, law_interned_stands_for,
    lemma_interned_prim, run_possible, verdicts_possible, Interner, Node, NIL,
};
use crate::complex::Complex64;
use crate::expr::{stands_for, Expr};
use crate::float::{canonical, canonize, negate, negated, same_float, ONE_BITS};
use crate::text::{
    at, check_at, check_digit, check_word, decimal, get_blanks_end, is_blank, is_digit,
    lemma_skip_blanks, push_range, push_u64, skip_blanks, to_chars,
};

verus! {

/// Why a text is no expression, and at which character that was found.
#[derive(Debug, Clone, PartialEq)]
pub struct ParseError {
    pub message: String,
    pub pos: usize,
}

impl ParseError {
    /// The error as one line of text.
    pub fn to_text(&self) -> (r: String)
        ensures
            r@ == "parse error at byte "@ + decimal(self.pos as nat) + ": "@ + self.message@,
    {
        let mut out = String::new();
        out.push_str("parse error at byte ");
        push_u64(&mut out, self.pos as u64);
        out.push_str(": ");
        out.push_str(self.message.as_str());
        assert(out@ =~= "parse error at byte "@ + decimal(self.pos as nat) + ": "@
            + self.message@);
        out
    }
}

/// The bits of the ratio of a circle's circumference to its diameter.
pub const PI_BITS: u64 = 0x4009_21fb_5444_2d18;

/// The bits of Euler's number.
pub const E_BITS: u64 = 0x4005_bf0a_8b14_5769;

pub open spec fn is_ascii(c: char) -> bool {
    0x7f >= c as int
}

/// A character outside ASCII has the Unicode property `Alphabetic`.
pub uninterp spec fn alphabetic(c: char) -> bool;

/// A character outside ASCII has the Unicode property `Alphabetic` or one of the numeric
/// general categories.
pub uninterp spec fn alphanumeric(c: char) -> bool;

/// `c` is a letter.
pub open spec fn is_letter(c: char) -> bool {
    if is_ascii(c) {
        'a' <= c <= 'z' || 'A' <= c <= 'Z'
    } else {
        alphabetic(c)
    }
}

/// `c` is a letter, a digit or an underscore.
pub open spec fn is_name_char(c: char) -> bool {
    if is_ascii(c) {
        'a' <= c <= 'z' || 'A' <= c <= 'Z' || is_digit(c) || c == '_'
    } else {
        alphanumeric(c)
    }
}

/// `char::is_alphabetic`: of the ASCII characters it holds of the letters alone; outside ASCII
/// its result is named.
#[verifier::external_body]
pub(crate) fn char_is_alphabetic(c: char) -> (r: bool)
    ensures
        r == (if is_ascii(c) {
            'a' <= c <= 'z' || 'A' <= c <= 'Z'
        } else {
            alphabetic(c)
        }),
{
    c.is_alphabetic()
}

/// `char::is_alphanumeric`: of the ASCII characters it holds of the letters and the digits
/// alone; outside ASCII its result is named.
#[verifier::external_body]
pub(crate) fn char_is_alphanumeric(c: char) -> (r: bool)
    ensures
        r == (if is_ascii(c) {
            'a' <= c <= 'z' || 'A' <= c <= 'Z' || '0' <= c <= '9'
        } else {
            alphanumeric(c)
        }),
{
    c.is_alphanumeric()
}

/// The binary64 number that a text is read as, if it is one.
pub uninterp spec fn float_of_text(text: Seq<char>) -> Option<u64>;

/// A digit stands somewhere in `s` from place `p` on.
pub open spec fn has_digit(s: Seq<char>, p: int) -> bool {
    exists|i: int| p <= i < s.len() && is_digit(#[trigger] s[i])
}

/// `str::parse` to binary64: the result is named; which NaN a NaN result is stays open. Of
/// `["-"] {digit} ["." {digit}]` it makes a number when there is a digit, and none when there is
/// no digit.
#[verifier::external_body]
fn read_float(text: &str) -> (r: Option<u64>)
    ensures
        match (r, float_of_text(text@)) {
            (Some(a), Some(b)) => same_float(a, b),
            (None, None) => true,
            _ => false,
        },
        float_end(text@, 0) == text@.len() ==> (r is Some <==> has_digit(text@, 0)),
{
    match text.parse() {
        Ok(x) => Some(Pair::new(x, 0 as _).re.to_bits()),
        Err(_) => None,
    }
}

/// The binary64 number that a text stands for, if it stands for one.
pub open spec fn float_value(text: Seq<char>) -> Option<u64> {
    match float_of_text(text) {
        Some(b) => Some(canonical(b)),
        None => None,
    }
}

/// Reads a binary64 number.
pub(crate) fn parse_float(text: &str) -> (r: Option<u64>)
    ensures
        r == float_value(text@),
        float_end(text@, 0) == text@.len() ==> (r is Some <==> has_digit(text@, 0)),
{
    match read_float(text) {
        Some(b) => Some(canonize(b)),
        None => None,
    }
}

/// The first place from `p` on that holds no digit.
pub open spec fn digits_end(s: Seq<char>, p: int) -> int
    decreases s.len() - p,
{
    if 0 <= p < s.len() && is_digit(s[p]) {
        digits_end(s, p + 1)
    } else {
        p
    }
}

/// The first place from `p` on that holds neither a letter nor a digit nor an underscore.
pub open spec fn name_end(s: Seq<char>, p: int) -> int
    decreases s.len() - p,
{
    if 0 <= p < s.len() && is_name_char(s[p]) {
        name_end(s, p + 1)
    } else {
        p
    }
}

/// Where the digits of a number that starts at `p` start.
pub open spec fn float_start(s: Seq<char>, p: int) -> int {
    if at(s, p, '-') {
        p + 1
    } else {
        p
    }
}

/// Where a number that starts at `p` ends.
pub open spec fn float_end(s: Seq<char>, p: int) -> int {
    let whole = digits_end(s, float_start(s, p));
    if at(s, whole, '.') {
        digits_end(s, whole + 1)
    } else {
        whole
    }
}

/// A number that starts at `p` has digits, and digits behind its point if it has one.
pub open spec fn float_ok(s: Seq<char>, p: int) -> bool {
    let whole = digits_end(s, float_start(s, p));
    float_start(s, p) < whole && (at(s, whole, '.') ==> whole + 1 < digits_end(s, whole + 1))
}

/// What reading something from a text comes to: the thing and the place behind it, or a
/// message and the place it belongs to.
pub type Reading<T> = Result<(T, int), (Seq<char>, int)>;

/// Reads a number, and whether it carries the suffix `i`.
pub open spec fn read_term(s: Seq<char>, p: int) -> Reading<(u64, bool)> {
    let end = float_end(s, p);
    if end == float_start(s, p) {
        Err(("expected a number"@, end))
    } else {
        let text = s.subrange(p, end);
        if !float_ok(s, p) {
            Err(("invalid numeric literal"@, end))
        } else if at(s, end, 'i') || at(s, end, 'I') {
            Ok(((float_value(text)->0, true), end + 1))
        } else {
            Ok(((float_value(text)->0, false), end))
        }
    }
}

/// The constant that is written as the term `first`, imaginary or not, and perhaps the magnitude
/// of an imaginary part behind a sign, which is a minus sign or not.
pub open spec fn literal(first: u64, imaginary: bool, second: Option<(bool, u64)>) -> Complex64 {
    match second {
        Some((minus, mag)) => Complex64 {
            re: first,
            im: if minus {
                negated(mag)
            } else {
                mag
            },
        },
        None => if imaginary {
            Complex64 { re: 0, im: first }
        } else {
            Complex64 { re: first, im: 0 }
        },
    }
}

/// Reads a real, imaginary or complex constant.
pub open spec fn read_number(s: Seq<char>, p: int) -> Reading<Complex64> {
    match read_term(s, p) {
        Err(e) => Err(e),
        Ok(((first, true), end)) => Ok((literal(first, true, None), skip_blanks(s, end))),
        Ok(((first, false), end)) => {
            let sign = skip_blanks(s, end);
            if at(s, sign, '+') || at(s, sign, '-') {
                match read_term(s, skip_blanks(s, sign + 1)) {
                    Err(e) => Err(e),
                    Ok(((_, false), q)) => Err(
                        ("expected 'i' suffix on the second term of a complex literal"@, q),
                    ),
                    Ok(((mag, true), q)) => Ok(
                        (literal(first, false, Some((at(s, sign, '-'), mag))), q),
                    ),
                }
            } else {
                Ok((literal(first, false, None), sign))
            }
        },
    }
}

pub open spec fn names_variable(w: Seq<char>) -> bool {
    w == "x"@ || w == "X"@
}

/// The constant that `w` names.
pub open spec fn named_constant(w: Seq<char>) -> Option<Complex64> {
    if w == "i"@ || w == "I"@ {
        Some(Complex64 { re: 0, im: ONE_BITS })
    } else if w == "pi"@ || w == "PI"@ || w == "Pi"@ {
        Some(Complex64 { re: PI_BITS, im: 0 })
    } else if w == "e"@ || w == "E"@ {
        Some(Complex64 { re: E_BITS, im: 0 })
    } else {
        None
    }
}

pub open spec fn names_primitive(w: Seq<char>) -> bool {
    w == "f"@ || w == "eml"@ || w == "F"@ || w == "EML"@
}

/// Reads the punctuation mark `c`, after blanks.
pub open spec fn read_mark(s: Seq<char>, p: int, c: char) -> Reading<()> {
    let q = skip_blanks(s, p);
    if at(s, q, c) {
        Ok(((), q + 1))
    } else {
        Err(("expected '"@ + seq![c] + "'"@, q))
    }
}

/// Reads an expression, after blanks.
pub open spec fn read_expr(s: Seq<char>, p: int) -> Reading<Expr>
    decreases s.len() - p, 1int,
{
    let q = skip_blanks(s, p);
    if !(p <= q < s.len()) {
        Err(("unexpected end of input"@, q))
    } else if is_digit(s[q]) || s[q] == '-' || s[q] == '.' {
        match read_number(s, q) {
            Err(e) => Err(e),
            Ok((v, end)) => Ok((Expr::Const(v), end)),
        }
    } else if is_letter(s[q]) {
        let w = s.subrange(q, name_end(s, q));
        let after = skip_blanks(s, name_end(s, q));
        if names_variable(w) {
            Ok((Expr::Var, after))
        } else if named_constant(w) is Some {
            Ok((Expr::Const(named_constant(w)->0), after))
        } else if names_primitive(w) && p < after <= s.len() {
            read_operands(s, after)
        } else {
            Err(
                (
                    "unknown identifier '"@ + w
                        + "' (expected x, i, pi, e, or f(...)/eml(...))"@,
                    q,
                ),
            )
        }
    } else {
        Err(("unexpected character '"@ + seq![s[q]] + "'"@, q))
    }
}

/// Reads the two operands of the primitive, in their brackets. (What is read ends behind the
/// place where it starts, so that the tests of places below never fail.)
pub open spec fn read_operands(s: Seq<char>, p: int) -> Reading<Expr>
    decreases s.len() - p, 0int,
{
    match read_mark(s, p, '(') {
        Err(e) => Err(e),
        Ok((_, p1)) => if !(p < p1 <= s.len()) {
            Err((""@, p))
        } else {
            match read_expr(s, p1) {
                Err(e) => Err(e),
                Ok((a, p2)) => match read_mark(s, p2, ',') {
                    Err(e) => Err(e),
                    Ok((_, p3)) => if !(p < p3 <= s.len()) {
                        Err((""@, p))
                    } else {
                        match read_expr(s, p3) {
                            Err(e) => Err(e),
                            Ok((b, p4)) => match read_mark(s, p4, ')') {
                                Err(e) => Err(e),
                                Ok((_, p5)) => Ok((Expr::Prim(Box::new(a), Box::new(b)), p5)),
                            },
                        }
                    },
                },
            }
        },
    }
}

/// Reads a text that is one expression, with blanks around it, and nothing else.
pub open spec fn read_all(s: Seq<char>) -> Result<Expr, (Seq<char>, int)> {
    match read_expr(s, 0) {
        Err(e) => Err(e),
        Ok((e, p)) => {
            let end = skip_blanks(s, p);
            if end == s.len() {
                Ok(e)
            } else {
                Err(("trailing input after a complete expression"@, end))
            }
        },
    }
}

/// The expressions that were read, from left to right, when reading the expression at `p` fails.
pub open spec fn read_before_failure(s: Seq<char>, p: int) -> Seq<Expr>
    decreases s.len() - p, 1int,
{
    let q = skip_blanks(s, p);
    if !(p <= q < s.len()) || is_digit(s[q]) || s[q] == '-' || s[q] == '.' || !is_letter(s[q]) {
        Seq::empty()
    } else {
        let w = s.subrange(q, name_end(s, q));
        let after = skip_blanks(s, name_end(s, q));
        if names_primitive(w) && p < after <= s.len() {
            operands_before_failure(s, after)
        } else {
            Seq::empty()
        }
    }
}

/// The expressions that were read, from left to right, when reading the operands at `p` fails.
pub open spec fn operands_before_failure(s: Seq<char>, p: int) -> Seq<Expr>
    decreases s.len() - p, 0int,
{
    match read_mark(s, p, '(') {
        Err(_) => Seq::empty(),
        Ok((_, p1)) => if !(p < p1 <= s.len()) {
            Seq::empty()
        } else {
            match read_expr(s, p1) {
                Err(_) => read_before_failure(s, p1),
                Ok((a, p2)) => match read_mark(s, p2, ',') {
                    Err(_) => seq![a],
                    Ok((_, p3)) => if !(p < p3 <= s.len()) {
                        seq![a]
                    } else {
                        match read_expr(s, p3) {
                            Err(_) => seq![a] + read_before_failure(s, p3),
                            Ok((b, _)) => seq![a] + seq![b],
                        }
                    },
                },
            }
        },
    }
}

/// The expressions that were read, from left to right, when a text is no expression.
pub open spec fn all_before_failure(s: Seq<char>) -> Seq<Expr> {
    match read_expr(s, 0) {
        Err(_) => read_before_failure(s, 0),
        Ok((e, _)) => seq![e],
    }
}

/// Interning `e` may lead from `before` to `after`.
pub open spec fn may_intern(before: Seq<Node>, e: Expr, after: Seq<Node>) -> bool {
    exists|id: int| #[trigger] interned(before, e, after, id)
}

/// `stages` leads from `before` to `after`, each of the expressions being interned in turn.
pub open spec fn is_stages(
    before: Seq<Node>,
    es: Seq<Expr>,
    after: Seq<Node>,
    stages: Seq<Seq<Node>>,
) -> bool {
    &&& stages.len() == es.len() + 1
    &&& stages[0] == before
    &&& stages.last() == after
    &&& forall|i: int| 0 <= i < es.len() ==> may_intern(stages[i], #[trigger] es[i], stages[i + 1])
}

/// Interning the expressions one after the other may lead from `before` to `after`.
pub open spec fn may_intern_all(before: Seq<Node>, es: Seq<Expr>, after: Seq<Node>) -> bool {
    exists|stages: Seq<Seq<Node>>| #[trigger] is_stages(before, es, after, stages)
}

proof fn lemma_intern_none(before: Seq<Node>)
    ensures
        may_intern_all(before, Seq::empty(), before),
{
    assert(is_stages(before, Seq::empty(), before, seq![before]));
}

/// One expression can be put in front.
proof fn lemma_intern_first(
    before: Seq<Node>,
    e: Expr,
    mid: Seq<Node>,
    id: int,
    es: Seq<Expr>,
    after: Seq<Node>,
)
    requires
        interned(before, e, mid, id),
        may_intern_all(mid, es, after),
    ensures
        may_intern_all(before, seq![e] + es, after),
{
    let stages = choose|stages: Seq<Seq<Node>>| #[trigger] is_stages(mid, es, after, stages);
    let more = seq![before] + stages;
    let all = seq![e] + es;
    assert(may_intern(before, e, mid));
    assert forall|i: int| 0 <= i < all.len() implies may_intern(
        more[i],
        #[trigger] all[i],
        more[i + 1],
    ) by {
        if i > 0 {
            assert(all[i] == es[i - 1]);
            assert(more[i] == stages[i - 1] && more[i + 1] == stages[i - 1 + 1]);
        }
    }
    assert(is_stages(before, all, after, more));
}

/// One expression alone.
proof fn lemma_intern_one(before: Seq<Node>, e: Expr, after: Seq<Node>, id: int)
    requires
        interned(before, e, after, id),
    ensures
        may_intern_all(before, seq![e], after),
{
    lemma_intern_none(after);
    lemma_intern_first(before, e, after, id, Seq::empty(), after);
    assert(seq![e] + Seq::empty() =~= seq![e]);
}

proof fn lemma_digits_end(s: Seq<char>, p: int)
    requires
        0 <= p <= s.len(),
    ensures
        p <= digits_end(s, p) <= s.len(),
        forall|i: int| p <= i < digits_end(s, p) ==> is_digit(#[trigger] s[i]),
        digits_end(s, p) < s.len() ==> !is_digit(s[digits_end(s, p)]),
    decreases s.len() - p,
{
    if p < s.len() && is_digit(s[p]) {
        lemma_digits_end(s, p + 1);
    }
}

pub proof fn lemma_name_end(s: Seq<char>, p: int)
    requires
        0 <= p <= s.len(),
    ensures
        p <= name_end(s, p) <= s.len(),
        p < s.len() && is_name_char(s[p]) ==> p < name_end(s, p),
    decreases s.len() - p,
{
    if p < s.len() && is_name_char(s[p]) {
        lemma_name_end(s, p + 1);
    }
}

proof fn lemma_float_end(s: Seq<char>, p: int)
    requires
        0 <= p <= s.len(),
    ensures
        p <= float_start(s, p) <= float_end(s, p) <= s.len(),
        float_start(s, p) <= digits_end(s, float_start(s, p)) <= s.len(),
{
    let start = float_start(s, p);
    lemma_digits_end(s, start);
    let whole = digits_end(s, start);
    if at(s, whole, '.') {
        lemma_digits_end(s, whole + 1);
    }
}

/// Digits end where digits end, in a piece of the text that holds them.
proof fn lemma_digits_end_piece(s: Seq<char>, from: int, to: int, p: int)
    requires
        0 <= from <= p <= to <= s.len(),
        digits_end(s, p) <= to,
    ensures
        digits_end(s.subrange(from, to), p - from) == digits_end(s, p) - from,
    decreases to - p,
{
    lemma_digits_end(s, p);
    let piece = s.subrange(from, to);
    if p < to {
        assert(piece[p - from] == s[p]);
        if is_digit(s[p]) {
            lemma_digits_end_piece(s, from, to, p + 1);
        }
    }
}

/// A number alone is the same number.
pub proof fn lemma_float_end_piece(s: Seq<char>, p: int)
    requires
        0 <= p <= s.len(),
    ensures
        p <= float_end(s, p) <= s.len(),
        float_end(s.subrange(p, float_end(s, p)), 0) == float_end(s, p) - p,
        float_ok(s, p) ==> float_ok(s.subrange(p, float_end(s, p)), 0),
{
    lemma_float_end(s, p);
    let end = float_end(s, p);
    let piece = s.subrange(p, end);
    let start = float_start(s, p);
    let whole = digits_end(s, start);
    lemma_digits_end(s, start);
    if at(s, whole, '.') {
        lemma_digits_end(s, whole + 1);
    }
    if at(s, p, '-') {
        assert(piece[0] == '-');
    } else if end > p {
        assert(piece[0] == s[p]);
    }
    assert(float_start(piece, 0) == start - p);
    lemma_digits_end_piece(s, p, end, start);
    if at(s, whole, '.') {
        assert(piece[whole - p] == '.');
        lemma_digits_end_piece(s, p, end, whole + 1);
    }
}

/// `e` is the failure that was to be expected.
pub open spec fn fails_as(e: ParseError, failure: (Seq<char>, int)) -> bool {
    e.message@ == failure.0 && e.pos == failure.1
}

fn error(message: &str, pos: usize) -> (e: ParseError)
    ensures
        fails_as(e, (message@, pos as int)),
{
    ParseError { message: message.to_owned(), pos }
}

fn get_digits_end(chars: &Vec<char>, pos: usize) -> (r: usize)
    requires
        pos <= chars@.len(),
    ensures
        r == digits_end(chars@, pos as int),
        pos <= r <= chars@.len(),
{
    let mut p: usize = pos;
    while p < chars.len() && check_digit(chars[p])
        invariant
            pos <= p <= chars@.len(),
            digits_end(chars@, pos as int) == digits_end(chars@, p as int),
        decreases chars@.len() - p,
    {
        p += 1;
    }
    p
}

fn check_name_char(c: char) -> (r: bool)
    ensures
        r == is_name_char(c),
{
    char_is_alphanumeric(c) || c == '_'
}

pub(crate) fn get_name_end(chars: &Vec<char>, pos: usize) -> (r: usize)
    requires
        pos <= chars@.len(),
    ensures
        r == name_end(chars@, pos as int),
        pos <= r <= chars@.len(),
{
    let mut p: usize = pos;
    while p < chars.len() && check_name_char(chars[p])
        invariant
            pos <= p <= chars@.len(),
            name_end(chars@, pos as int) == name_end(chars@, p as int),
        decreases chars@.len() - p,
    {
        p += 1;
    }
    p
}

fn term(chars: &Vec<char>, pos: usize) -> (r: Result<((u64, bool), usize), ParseError>)
    requires
        pos <= chars@.len(),
    ensures
        match r {
            Ok((t, end)) => read_term(chars@, pos as int) == Ok::<((u64, bool), int), (Seq<char>, int)>(
                (t, end as int),
            ) && pos < end <= chars@.len(),
            Err(e) => read_term(chars@, pos as int) matches Err(f) && fails_as(e, f),
        },
{
    proof {
        lemma_float_end(chars@, pos as int);
        lemma_float_end_piece(chars@, pos as int);
    }
    let start = if check_at(chars, pos, '-') {
        pos + 1
    } else {
        pos
    };
    let whole = get_digits_end(chars, start);
    let end = if check_at(chars, whole, '.') {
        get_digits_end(chars, whole + 1)
    } else {
        whole
    };
    if end == start {
        return Err(error("expected a number", end));
    }
    if whole == start || end - whole == 1 {
        return Err(error("invalid numeric literal", end));
    }
    let mut text = String::new();
    push_range(&mut text, chars, pos, end);
    assert(text@ =~= chars@.subrange(pos as int, end as int));
    proof {
        lemma_digits_end(chars@, start as int);
        assert(text@[start - pos] == chars@[start as int]);
        assert(has_digit(text@, 0));
    }
    match parse_float(text.as_str()) {
        None => Err(error("invalid numeric literal", end)),
        Some(v) => if check_at(chars, end, 'i') || check_at(chars, end, 'I') {
            Ok(((v, true), end + 1))
        } else {
            Ok(((v, false), end))
        },
    }
}

/// The constant that is written as the term `first`, imaginary or not, and perhaps the magnitude
/// of an imaginary part behind a sign, which is a minus sign or not.
pub fn make_literal(first: u64, imaginary: bool, second: Option<(bool, u64)>) -> (r: Complex64)
    ensures
        r == literal(first, imaginary, second),
{
    match second {
        Some((minus, mag)) => if minus {
            Complex64::new(first, negate(mag))
        } else {
            Complex64::new(first, mag)
        },
        None => if imaginary {
            Complex64::new(0, first)
        } else {
            Complex64::new(first, 0)
        },
    }
}

fn number(chars: &Vec<char>, pos: usize) -> (r: Result<(Complex64, usize), ParseError>)
    requires
        pos <= chars@.len(),
    ensures
        match r {
            Ok((v, end)) => read_number(chars@, pos as int) == Ok::<(Complex64, int), (Seq<char>, int)>(
                (v, end as int),
            ) && pos < end <= chars@.len(),
            Err(e) => read_number(chars@, pos as int) matches Err(f) && fails_as(e, f),
        },
{
    let ((first, imaginary), end) = match term(chars, pos) {
        Ok(t) => t,
        Err(e) => return Err(e),
    };
    let sign = get_blanks_end(chars, end);
    if imaginary {
        return Ok((make_literal(first, true, None), sign));
    }
    if check_at(chars, sign, '+') || check_at(chars, sign, '-') {
        let minus = check_at(chars, sign, '-');
        let from = get_blanks_end(chars, sign + 1);
        let ((mag, second_imaginary), q) = match term(chars, from) {
            Ok(t) => t,
            Err(e) => return Err(e),
        };
        if !second_imaginary {
            return Err(error("expected 'i' suffix on the second term of a complex literal", q));
        }
        return Ok((make_literal(first, false, Some((minus, mag))), q));
    }
    Ok((make_literal(first, false, None), sign))
}

fn mark(chars: &Vec<char>, pos: usize, c: char) -> (r: Result<usize, ParseError>)
    requires
        pos <= chars@.len(),
    ensures
        match r {
            Ok(end) => read_mark(chars@, pos as int, c) == Ok::<((), int), (Seq<char>, int)>(
                ((), end as int),
            ) && pos < end <= chars@.len(),
            Err(e) => read_mark(chars@, pos as int, c) matches Err(f) && fails_as(e, f),
        },
{
    let p = get_blanks_end(chars, pos);
    if check_at(chars, p, c) {
        Ok(p + 1)
    } else {
        let mut message = String::new();
        message.push_str("expected '");
        message.push(c);
        message.push_str("'");
        assert(message@ =~= "expected '"@ + seq![c] + "'"@);
        Err(ParseError { message, pos: p })
    }
}

/// The constant that the characters `from..to` name.
fn get_named_constant(chars: &Vec<char>, from: usize, to: usize) -> (r: Option<Complex64>)
    requires
        from <= to <= chars@.len(),
    ensures
        r == named_constant(chars@.subrange(from as int, to as int)),
{
    if check_word(chars, from, to, "i") || check_word(chars, from, to, "I") {
        Some(Complex64::new(0, ONE_BITS))
    } else if check_word(chars, from, to, "pi") || check_word(chars, from, to, "PI") || check_word(
        chars,
        from,
        to,
        "Pi",
    ) {
        Some(Complex64::new(PI_BITS, 0))
    } else if check_word(chars, from, to, "e") || check_word(chars, from, to, "E") {
        Some(Complex64::new(E_BITS, 0))
    } else {
        None
    }
}

/// What came of parsing the expression at `pos`: the nodes went from `before` to `after`.
spec fn parsed(
    chars: Seq<char>,
    pos: int,
    reading: Reading<Expr>,
    partial: Seq<Expr>,
    before: Seq<Node>,
    after: Seq<Node>,
    r: Result<(u32, usize), ParseError>,
) -> bool {
    extends(before, after) && (consts_apart(before) ==> consts_apart(after)) && match r {
        Ok((id, end)) => pos < end <= chars.len() && id < after.len() && after.len() <= before.len()
            + (end - pos) && (reading matches Ok((e, q)) && q == end && interned(
            before,
            e,
            after,
            id as int,
        )),
        Err(e) => after.len() <= before.len() + (chars.len() - pos) && (reading matches Err(f)
            && fails_as(e, f)) && may_intern_all(before, partial, after),
    }
}

fn parse_constant(interner: &mut Interner, v: Complex64) -> (id: u32)
    requires
        old(interner).wf(),
        old(interner).nodes().len() < NIL,
    ensures
        final(interner).wf(),
        extends(old(interner).nodes(), final(interner).nodes()),
        id < final(interner).nodes().len() <= old(interner).nodes().len() + 1,
        interned(old(interner).nodes(), Expr::Const(v), final(interner).nodes(), id as int),
        consts_apart(old(interner).nodes()) ==> consts_apart(final(interner).nodes()),
{
    let id = interner.intern_const(v);
    proof {
        let before = old(interner).nodes();
        let w = choose|w: Seq<bool>|
            verdicts_possible(before, v, w) && (interner.nodes(), id as int)
                == #[trigger] const_step(before, v, w);
        assert(run_possible(before, Expr::Const(v), seq![w]));
        assert(intern_run(before, Expr::Const(v), seq![w]) == (interner.nodes(), id as int));
    }
    id
}

fn parse_expr(interner: &mut Interner, chars: &Vec<char>, pos: usize) -> (r: Result<
    (u32, usize),
    ParseError,
>)
    requires
        old(interner).wf(),
        pos <= chars@.len(),
        old(interner).nodes().len() + (chars@.len() - pos) < NIL,
    ensures
        final(interner).wf(),
        parsed(
            chars@,
            pos as int,
            read_expr(chars@, pos as int),
            read_before_failure(chars@, pos as int),
            old(interner).nodes(),
            final(interner).nodes(),
            r,
        ),
    decreases chars@.len() - pos, 1int,
{
    let ghost s = chars@;
    let ghost before = interner.nodes();
    proof {
        lemma_intern_none(before);
    }
    let p = get_blanks_end(chars, pos);
    if p == chars.len() {
        return Err(error("unexpected end of input", p));
    }
    let c = chars[p];
    if check_digit(c) || c == '-' || c == '.' {
        match number(chars, p) {
            Err(e) => Err(e),
            Ok((v, end)) => Ok((parse_constant(interner, v), end)),
        }
    } else if char_is_alphabetic(c) {
        let name = get_name_end(chars, p);
        let after = get_blanks_end(chars, name);
        proof {
            lemma_name_end(s, p as int);
        }
        let ghost w = s.subrange(p as int, name as int);
        if check_word(chars, p, name, "x") || check_word(chars, p, name, "X") {
            proof {
                lemma_word_not_empty(w);
            }
            let id = interner.intern_var();
            proof {
                let none = Seq::<Seq<bool>>::empty();
                assert(run_possible(before, Expr::Var, none));
                assert(intern_run(before, Expr::Var, none) == (interner.nodes(), id as int));
            }
            return Ok((id, after));
        }
        if let Some(v) = get_named_constant(chars, p, name) {
            proof {
                lemma_word_not_empty(w);
            }
            return Ok((parse_constant(interner, v), after));
        }
        if check_word(chars, p, name, "f") || check_word(chars, p, name, "eml") || check_word(
            chars,
            p,
            name,
            "F",
        ) || check_word(chars, p, name, "EML") {
            proof {
                lemma_word_not_empty(w);
            }
            return parse_operands(interner, chars, after);
        }
        let mut message = String::new();
        message.push_str("unknown identifier '");
        push_range(&mut message, chars, p, name);
        message.push_str("' (expected x, i, pi, e, or f(...)/eml(...))");
        assert(message@ =~= "unknown identifier '"@ + w
            + "' (expected x, i, pi, e, or f(...)/eml(...))"@);
        Err(ParseError { message, pos: p })
    } else {
        let mut message = String::new();
        message.push_str("unexpected character '");
        message.push(c);
        message.push_str("'");
        assert(message@ =~= "unexpected character '"@ + seq![c] + "'"@);
        Err(ParseError { message, pos: p })
    }
}

/// What names something is not empty.
proof fn lemma_word_not_empty(w: Seq<char>)
    requires
        names_variable(w) || named_constant(w) is Some || names_primitive(w),
    ensures
        w.len() > 0,
{
    reveal_strlit("x");
    reveal_strlit("X");
    reveal_strlit("i");
    reveal_strlit("I");
    reveal_strlit("pi");
    reveal_strlit("PI");
    reveal_strlit("Pi");
    reveal_strlit("e");
    reveal_strlit("E");
    reveal_strlit("f");
    reveal_strlit("F");
    reveal_strlit("eml");
    reveal_strlit("EML");
}

fn parse_operands(interner: &mut Interner, chars: &Vec<char>, pos: usize) -> (r: Result<
    (u32, usize),
    ParseError,
>)
    requires
        old(interner).wf(),
        pos <= chars@.len(),
        old(interner).nodes().len() + (chars@.len() - pos) < NIL,
    ensures
        final(interner).wf(),
        parsed(
            chars@,
            pos as int,
            read_operands(chars@, pos as int),
            operands_before_failure(chars@, pos as int),
            old(interner).nodes(),
            final(interner).nodes(),
            r,
        ),
    decreases chars@.len() - pos, 0int,
{
    let ghost before = interner.nodes();
    proof {
        lemma_intern_none(before);
    }
    let p1 = match mark(chars, pos, '(') {
        Ok(p) => p,
        Err(e) => return Err(e),
    };
    let (a, p2) = match parse_expr(interner, chars, p1) {
        Ok(t) => t,
        Err(e) => return Err(e),
    };
    let ghost one = interner.nodes();
    let ghost x = (read_expr(chars@, p1 as int)->Ok_0).0;
    proof {
        lemma_intern_one(before, x, one, a as int);
    }
    let p3 = match mark(chars, p2, ',') {
        Ok(p) => p,
        Err(e) => return Err(e),
    };
    let (b, p4) = match parse_expr(interner, chars, p3) {
        Ok(t) => t,
        Err(e) => {
            proof {
                let rest = read_before_failure(chars@, p3 as int);
                lemma_intern_first(before, x, one, a as int, rest, interner.nodes());
            }
            return Err(e);
        },
    };
    let ghost two = interner.nodes();
    let ghost y = (read_expr(chars@, p3 as int)->Ok_0).0;
    proof {
        lemma_intern_one(one, y, two, b as int);
        lemma_intern_first(before, x, one, a as int, seq![y], two);
    }
    let p5 = match mark(chars, p4, ')') {
        Ok(p) => p,
        Err(e) => return Err(e),
    };
    proof {
        lemma_interned_prim(before, x, one, a, y, two, b);
    }
    Ok((interner.intern_prim(a, b), p5))
}

/// Parses `src` and interns the expression it is. The index of its root is returned, or else
/// why, and where, the text is no expression; what was read up to there stays interned.
pub fn parse(interner: &mut Interner, src: &str) -> (r: Result<u32, ParseError>)
    requires
        old(interner).wf(),
        old(interner).nodes().len() + src@.len() < NIL,
    ensures
        final(interner).wf(),
        extends(old(interner).nodes(), final(interner).nodes()),
        final(interner).nodes().len() <= old(interner).nodes().len() + src@.len(),
        consts_apart(old(interner).nodes()) ==> consts_apart(final(interner).nodes()),
        match r {
            Ok(id) => id < final(interner).nodes().len() && (read_all(src@) matches Ok(e)
                && interned(old(interner).nodes(), e, final(interner).nodes(), id as int)
                && stands_for(final(interner).expr(id), e)),
            Err(e) => (read_all(src@) matches Err(f) && fails_as(e, f)) && may_intern_all(
                old(interner).nodes(),
                all_before_failure(src@),
                final(interner).nodes(),
            ),
        },
{
    let chars = to_chars(src);
    let ghost before = interner.nodes();
    proof {
        interner.lemma_wf();
    }
    let (id, p) = match parse_expr(interner, &chars, 0) {
        Ok(t) => t,
        Err(e) => return Err(e),
    };
    let end = get_blanks_end(&chars, p);
    if end != chars.len() {
        proof {
            let e = (read_expr(src@, 0)->Ok_0).0;
            lemma_intern_one(before, e, interner.nodes(), id as int);
        }
        return Err(error("trailing input after a complete expression", end));
    }
    proof {
        let e = (read_expr(src@, 0)->Ok_0).0;
        interner.lemma_wf();
        law_interned_stands_for(before, e, interner.nodes(), id as int);
    }
    Ok(id)
}

/// Blanks before an expression, and before a punctuation mark, are passed over.
pub proof fn law_blanks_are_skipped(s: Seq<char>, p: int, c: char)
    requires
        0 <= p < s.len(),
        is_blank(s[p]),
    ensures
        read_mark(s, p, c) == read_mark(s, p + 1, c),
        read_expr(s, p) == read_expr(s, p + 1),
{
    lemma_skip_blanks(s, p + 1);
    assert(skip_blanks(s, p) == skip_blanks(s, p + 1));
    let q = skip_blanks(s, p);
    if q < s.len() {
        lemma_name_end(s, q);
        lemma_skip_blanks(s, name_end(s, q));
        if names_primitive(s.subrange(q, name_end(s, q))) {
            lemma_word_not_empty(s.subrange(q, name_end(s, q)));
        }
    }
}

} // verus!
