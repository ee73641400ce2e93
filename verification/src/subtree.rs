//! Reading the text of a subexpression in a catalog.
//!
//! ```text
//! node := "eml" "(" node "," node ")" | "x" | "i" | "e" | "pi" | number
//! ```
//!
//! Names may be written in capitals. A number is real, imaginary (`3.14i`) or the sum of both
//! (`1.234 + -3.14159i`). What follows the expression is ignored when it starts with a square
//! bracket.

use vstd::prelude::*;

use crate::complex::Complex64;
use crate::expr::Expr;
use crate::float::{INF_BITS, ONE_BITS};
use crate::listing::{any_digits_end, get_any_digits_end, trim, trimmed};
use crate::parser::{float_value, get_name_end, name_end, parse_float, E_BITS, PI_BITS};
use crate::text::{
    at, check_at, check_blank, check_digit, decimal, get_blanks_end, is_blank, is_digit, push_range,
    push_u64, skip_blanks, to_chars,
};

verus! {

/// The bits of negative infinity.
pub const NEG_INF_BITS: u64 = 0xfff0_0000_0000_0000;

/// `c` in lower case, if it is an ASCII letter.
pub open spec fn lower(c: char) -> char {
    if 'A' <= c <= 'Z' {
        (c as u32 + 32) as char
    } else {
        c
    }
}

/// `s` with its ASCII letters in lower case.
pub open spec fn lower_text(s: Seq<char>) -> Seq<char> {
    Seq::new(s.len(), |i: int| lower(s[i]))
}

/// Where a decimal number with an optional sign ends, if there is one at `p`.
pub open spec fn signed_end(s: Seq<char>, p: int) -> Option<int> {
    let from = if at(s, p, '+') || at(s, p, '-') {
        p + 1
    } else {
        p
    };
    let whole = any_digits_end(s, from);
    if whole <= from {
        None
    } else if at(s, whole, '.') && any_digits_end(s, whole + 1) > whole + 1 {
        Some(any_digits_end(s, whole + 1))
    } else {
        Some(whole)
    }
}

/// The letter `i` stands at `p`.
pub open spec fn unit_at(s: Seq<char>, p: int) -> bool {
    at(s, p, 'i') || at(s, p, 'I')
}

/// Where the real part ends, and where the imaginary part starts and ends, when `s` is the sum
/// of both.
pub open spec fn sum_parts(s: Seq<char>) -> Option<(int, int, int)> {
    match signed_end(s, 0) {
        None => None,
        Some(re_end) => {
            let plus = skip_blanks(s, re_end);
            let from = skip_blanks(s, plus + 1);
            match signed_end(s, from) {
                Some(im_end) => if at(s, plus, '+') && unit_at(s, im_end) && im_end + 1
                    == s.len() {
                    Some((re_end, from, im_end))
                } else {
                    None
                },
                None => None,
            }
        },
    }
}

/// Where the number ends, when `s` is an imaginary number.
pub open spec fn imaginary_end(s: Seq<char>) -> Option<int> {
    match signed_end(s, 0) {
        Some(end) => if unit_at(s, end) && end + 1 == s.len() {
            Some(end)
        } else {
            None
        },
        None => None,
    }
}

/// The complex number that a text without blanks at its ends stands for.
pub open spec fn number_value(s: Seq<char>) -> Result<Complex64, Seq<char>> {
    let word = lower_text(s);
    if word == "inf"@ || word == "+inf"@ {
        Ok(Complex64 { re: INF_BITS, im: 0 })
    } else if word == "-inf"@ {
        Ok(Complex64 { re: NEG_INF_BITS, im: 0 })
    } else if sum_parts(s) is Some {
        let (re_end, from, im_end) = sum_parts(s)->0;
        match (float_value(s.subrange(0, re_end)), float_value(s.subrange(from, im_end))) {
            (Some(re), Some(im)) => Ok(Complex64 { re, im }),
            _ => Err("invalid float literal"@),
        }
    } else if imaginary_end(s) is Some {
        match float_value(s.subrange(0, imaginary_end(s)->0)) {
            Some(im) => Ok(Complex64 { re: 0, im }),
            None => Err("invalid float literal"@),
        }
    } else {
        match float_value(s) {
            Some(re) => Ok(Complex64 { re, im: 0 }),
            None => Err("Unrecognized numeric token: '"@ + s + "'"@),
        }
    }
}

fn get_lower(c: char) -> (r: char)
    ensures
        r == lower(c),
{
    if 'A' <= c && c <= 'Z' {
        (c as u8 + 32) as char
    } else {
        c
    }
}

fn lowered(chars: &Vec<char>, from: usize, to: usize) -> (r: String)
    requires
        from <= to <= chars@.len(),
    ensures
        r@ == lower_text(chars@.subrange(from as int, to as int)),
{
    let mut r = String::new();
    let mut i: usize = from;
    while i < to
        invariant
            from <= i <= to <= chars@.len(),
            r@ == lower_text(chars@.subrange(from as int, i as int)),
        decreases to - i,
    {
        r.push(get_lower(chars[i]));
        i += 1;
        assert(r@ =~= lower_text(chars@.subrange(from as int, i as int)));
    }
    assert(r@ =~= lower_text(chars@.subrange(from as int, to as int)));
    r
}

/// Whether `a` and `b` are the same text.
fn check_text(a: &str, b: &str) -> (r: bool)
    ensures
        r == (a@ == b@),
{
    let (x, y) = (to_chars(a), to_chars(b));
    if x.len() != y.len() {
        return false;
    }
    let mut i: usize = 0;
    while i < x.len()
        invariant
            x@ == a@,
            y@ == b@,
            x@.len() == y@.len(),
            i <= x@.len(),
            forall|j: int| 0 <= j < i ==> #[trigger] x@[j] == y@[j],
        decreases x@.len() - i,
    {
        if x[i] != y[i] {
            return false;
        }
        i += 1;
    }
    assert(x@ =~= y@);
    true
}

fn get_signed_end(chars: &Vec<char>, p: usize) -> (r: Option<usize>)
    requires
        p <= chars@.len(),
    ensures
        match r {
            Some(end) => signed_end(chars@, p as int) == Some(end as int) && p < end
                <= chars@.len(),
            None => signed_end(chars@, p as int) is None,
        },
{
    let from = if check_at(chars, p, '+') || check_at(chars, p, '-') {
        p + 1
    } else {
        p
    };
    let whole = get_any_digits_end(chars, from);
    if whole == from {
        return None;
    }
    if check_at(chars, whole, '.') {
        let end = get_any_digits_end(chars, whole + 1);
        if end > whole + 1 {
            return Some(end);
        }
    }
    Some(whole)
}

fn check_unit_at(chars: &Vec<char>, p: usize) -> (r: bool)
    ensures
        r == unit_at(chars@, p as int),
        r ==> p < usize::MAX,
{
    check_at(chars, p, 'i') || check_at(chars, p, 'I')
}

fn get_sum_parts(chars: &Vec<char>) -> (r: Option<(usize, usize, usize)>)
    ensures
        match r {
            Some((a, b, c)) => sum_parts(chars@) == Some((a as int, b as int, c as int)) && a
                <= chars@.len() && b <= c <= chars@.len(),
            None => sum_parts(chars@) is None,
        },
{
    let re_end = match get_signed_end(chars, 0) {
        Some(end) => end,
        None => return None,
    };
    let plus = get_blanks_end(chars, re_end);
    if !check_at(chars, plus, '+') {
        return None;
    }
    let from = get_blanks_end(chars, plus + 1);
    match get_signed_end(chars, from) {
        Some(im_end) => if check_unit_at(chars, im_end) && im_end + 1 == chars.len() {
            Some((re_end, from, im_end))
        } else {
            None
        },
        None => None,
    }
}

fn float_of_range(chars: &Vec<char>, from: usize, to: usize) -> (r: Option<u64>)
    requires
        from <= to <= chars@.len(),
    ensures
        r == float_value(chars@.subrange(from as int, to as int)),
{
    let mut text = String::new();
    push_range(&mut text, chars, from, to);
    assert(text@ =~= chars@.subrange(from as int, to as int));
    parse_float(text.as_str())
}

/// Reads a complex number. Blanks at the ends are ignored.
pub fn parse_number_string(s: &str) -> (r: Result<Complex64, String>)
    ensures
        match number_value(trim(s@)) {
            Ok(v) => r == Ok::<Complex64, String>(v),
            Err(e) => r matches Err(message) && message@ == e,
        },
{
    let all = to_chars(s);
    assert(all@.subrange(0, all@.len() as int) =~= s@);
    let text = trimmed(&all, 0, all.len());
    let chars = to_chars(text.as_str());
    assert(chars@.subrange(0, chars@.len() as int) =~= chars@);
    let word = lowered(&chars, 0, chars.len());
    if check_text(word.as_str(), "inf") || check_text(word.as_str(), "+inf") {
        return Ok(Complex64::new(INF_BITS, 0));
    }
    if check_text(word.as_str(), "-inf") {
        return Ok(Complex64::new(NEG_INF_BITS, 0));
    }
    if let Some((re_end, from, im_end)) = get_sum_parts(&chars) {
        return match (float_of_range(&chars, 0, re_end), float_of_range(&chars, from, im_end)) {
            (Some(re), Some(im)) => Ok(Complex64::new(re, im)),
            _ => Err("invalid float literal".to_owned()),
        };
    }
    if let Some(end) = get_signed_end(&chars, 0) {
        if check_unit_at(&chars, end) && end + 1 == chars.len() {
            return match float_of_range(&chars, 0, end) {
                Some(im) => Ok(Complex64::new(0, im)),
                None => Err("invalid float literal".to_owned()),
            };
        }
    }
    match parse_float(text.as_str()) {
        Some(re) => Ok(Complex64::new(re, 0)),
        None => {
            let mut message = String::new();
            message.push_str("Unrecognized numeric token: '");
            message.push_str(text.as_str());
            message.push_str("'");
            assert(message@ =~= "Unrecognized numeric token: '"@ + trim(s@) + "'"@);
            Err(message)
        },
    }
}

/// `c` may stand in a number.
pub open spec fn is_number_char(c: char) -> bool {
    is_digit(c) || c == '.' || c == '+' || c == '-' || c == 'i' || c == 'I' || c == 'e' || c == 'E'
        || c == 'n' || c == 'N' || is_blank(c)
}

/// The first place from `p` on that holds nothing that may stand in a number.
pub open spec fn token_end(s: Seq<char>, p: int) -> int
    decreases s.len() - p,
{
    if 0 <= p < s.len() && is_number_char(s[p]) {
        token_end(s, p + 1)
    } else {
        p
    }
}

/// What reading something from a text comes to: the thing and the place behind it, or a
/// message.
pub type Reading<T> = Result<(T, int), Seq<char>>;

/// Reads a number, after blanks.
pub open spec fn read_token(s: Seq<char>, p: int) -> Reading<Expr> {
    let from = skip_blanks(s, p);
    let end = token_end(s, from);
    let raw = trim(s.subrange(from, end));
    if raw.len() == 0 {
        Err("Expected numeric token at pos "@ + decimal(from as nat))
    } else {
        match number_value(trim(raw)) {
            Ok(v) => Ok((Expr::Const(v), end)),
            Err(e) => Err(e),
        }
    }
}

/// Reads the punctuation mark `c`, after blanks.
pub open spec fn read_mark(s: Seq<char>, p: int, c: char) -> Result<int, Seq<char>> {
    let q = skip_blanks(s, p);
    if at(s, q, c) {
        Ok(q + 1)
    } else if q < s.len() {
        Err(
            "Expected '"@ + seq![c] + "' but found '"@ + seq![s[q]] + "' at pos "@ + decimal(
                q as nat,
            ),
        )
    } else {
        Err("Expected '"@ + seq![c] + "' but found end of input"@)
    }
}

/// What a name stands for.
pub open spec fn named(w: Seq<char>) -> Option<Expr> {
    if w == "x"@ {
        Some(Expr::Var)
    } else if w == "i"@ {
        Some(Expr::Const(Complex64 { re: 0, im: ONE_BITS }))
    } else if w == "e"@ {
        Some(Expr::Const(Complex64 { re: E_BITS, im: 0 }))
    } else if w == "pi"@ {
        Some(Expr::Const(Complex64 { re: PI_BITS, im: 0 }))
    } else {
        None
    }
}

/// Reads an expression, after blanks.
pub open spec fn read_node(s: Seq<char>, p: int) -> Reading<Expr>
    decreases s.len() - p, 1int,
{
    let q = skip_blanks(s, p);
    let end = name_end(s, q);
    if q < s.len() && (is_digit(s[q]) || s[q] == '+' || s[q] == '-') {
        read_token(s, q)
    } else if end > q {
        let w = lower_text(s.subrange(q, end));
        if w == "eml"@ && p < end <= s.len() {
            read_pair(s, end)
        } else {
            match named(w) {
                Some(e) => Ok((e, end)),
                None => Err("Unknown identifier '"@ + w + "'"@),
            }
        }
    } else {
        read_token(s, q)
    }
}

/// Reads the two operands of the primitive, in their brackets. (What is read ends behind the
/// place where it starts, so that the tests of places below never fail.)
pub open spec fn read_pair(s: Seq<char>, p: int) -> Reading<Expr>
    decreases s.len() - p, 0int,
{
    match read_mark(s, p, '(') {
        Err(e) => Err(e),
        Ok(p1) => if !(p < p1 <= s.len()) {
            Err(""@)
        } else {
            match read_node(s, p1) {
                Err(e) => Err(e),
                Ok((a, p2)) => match read_mark(s, p2, ',') {
                    Err(e) => Err(e),
                    Ok(p3) => if !(p < p3 <= s.len()) {
                        Err(""@)
                    } else {
                        match read_node(s, p3) {
                            Err(e) => Err(e),
                            Ok((b, p4)) => match read_mark(s, p4, ')') {
                                Err(e) => Err(e),
                                Ok(p5) => Ok((Expr::Prim(Box::new(a), Box::new(b)), p5)),
                            },
                        }
                    },
                },
            }
        },
    }
}

/// Reads a text that starts with an expression. What follows it is ignored when it starts with a
/// square bracket.
pub open spec fn read_subtree(text: Seq<char>) -> Result<Expr, Seq<char>> {
    let s = trim(text);
    match read_node(s, 0) {
        Err(e) => Err(e),
        Ok((e, p)) => {
            let end = skip_blanks(s, p);
            if end >= s.len() || s[end] == '[' {
                Ok(e)
            } else {
                Err("Unexpected trailing content after parse: '"@ + s.skip(end) + "'"@)
            }
        },
    }
}

fn check_number_char(c: char) -> (r: bool)
    ensures
        r == is_number_char(c),
{
    check_digit(c) || c == '.' || c == '+' || c == '-' || c == 'i' || c == 'I' || c == 'e' || c
        == 'E' || c == 'n' || c == 'N' || check_blank(c)
}

fn token(chars: &Vec<char>, pos: usize) -> (r: Result<(Expr, usize), String>)
    requires
        pos <= chars@.len(),
    ensures
        match r {
            Ok((e, end)) => read_token(chars@, pos as int) == Ok::<(Expr, int), Seq<char>>(
                (e, end as int),
            ) && pos <= end <= chars@.len(),
            Err(message) => read_token(chars@, pos as int) matches Err(e) && message@ == e,
        },
{
    let from = get_blanks_end(chars, pos);
    let mut end: usize = from;
    while end < chars.len() && check_number_char(chars[end])
        invariant
            from <= end <= chars@.len(),
            token_end(chars@, from as int) == token_end(chars@, end as int),
        decreases chars@.len() - end,
    {
        end += 1;
    }
    let raw = trimmed(chars, from, end);
    if to_chars(raw.as_str()).len() == 0 {
        let mut message = String::new();
        message.push_str("Expected numeric token at pos ");
        push_u64(&mut message, from as u64);
        assert(message@ =~= "Expected numeric token at pos "@ + decimal(from as nat));
        return Err(message);
    }
    match parse_number_string(raw.as_str()) {
        Ok(v) => Ok((Expr::Const(v), end)),
        Err(e) => Err(e),
    }
}

fn mark(chars: &Vec<char>, pos: usize, c: char) -> (r: Result<usize, String>)
    requires
        pos <= chars@.len(),
    ensures
        match r {
            Ok(end) => read_mark(chars@, pos as int, c) == Ok::<int, Seq<char>>(end as int) && pos
                < end <= chars@.len(),
            Err(message) => read_mark(chars@, pos as int, c) matches Err(e) && message@ == e,
        },
{
    let q = get_blanks_end(chars, pos);
    if check_at(chars, q, c) {
        return Ok(q + 1);
    }
    let mut message = String::new();
    message.push_str("Expected '");
    message.push(c);
    if q < chars.len() {
        message.push_str("' but found '");
        message.push(chars[q]);
        message.push_str("' at pos ");
        push_u64(&mut message, q as u64);
        assert(message@ =~= "Expected '"@ + seq![c] + "' but found '"@ + seq![chars@[q as int]]
            + "' at pos "@ + decimal(q as nat));
    } else {
        message.push_str("' but found end of input");
        assert(message@ =~= "Expected '"@ + seq![c] + "' but found end of input"@);
    }
    Err(message)
}

fn get_named(w: &str) -> (r: Option<Expr>)
    ensures
        r == named(w@),
{
    if check_text(w, "x") {
        Some(Expr::Var)
    } else if check_text(w, "i") {
        Some(Expr::Const(Complex64::new(0, ONE_BITS)))
    } else if check_text(w, "e") {
        Some(Expr::Const(Complex64::new(E_BITS, 0)))
    } else if check_text(w, "pi") {
        Some(Expr::Const(Complex64::new(PI_BITS, 0)))
    } else {
        None
    }
}

fn node(chars: &Vec<char>, pos: usize) -> (r: Result<(Expr, usize), String>)
    requires
        pos <= chars@.len(),
    ensures
        match r {
            Ok((e, end)) => read_node(chars@, pos as int) == Ok::<(Expr, int), Seq<char>>(
                (e, end as int),
            ) && pos <= end <= chars@.len(),
            Err(message) => read_node(chars@, pos as int) matches Err(e) && message@ == e,
        },
    decreases chars@.len() - pos, 1int,
{
    let q = get_blanks_end(chars, pos);
    if q < chars.len() && (check_digit(chars[q]) || chars[q] == '+' || chars[q] == '-') {
        return token(chars, q);
    }
    let end = get_name_end(chars, q);
    if end == q {
        return token(chars, q);
    }
    let w = lowered(chars, q, end);
    if check_text(w.as_str(), "eml") {
        return pair(chars, end);
    }
    match get_named(w.as_str()) {
        Some(e) => Ok((e, end)),
        None => {
            let mut message = String::new();
            message.push_str("Unknown identifier '");
            message.push_str(w.as_str());
            message.push_str("'");
            assert(message@ =~= "Unknown identifier '"@ + w@ + "'"@);
            Err(message)
        },
    }
}

fn pair(chars: &Vec<char>, pos: usize) -> (r: Result<(Expr, usize), String>)
    requires
        pos <= chars@.len(),
    ensures
        match r {
            Ok((e, end)) => read_pair(chars@, pos as int) == Ok::<(Expr, int), Seq<char>>(
                (e, end as int),
            ) && pos <= end <= chars@.len(),
            Err(message) => read_pair(chars@, pos as int) matches Err(e) && message@ == e,
        },
    decreases chars@.len() - pos, 0int,
{
    let p1 = match mark(chars, pos, '(') {
        Ok(p) => p,
        Err(e) => return Err(e),
    };
    let (a, p2) = match node(chars, p1) {
        Ok(t) => t,
        Err(e) => return Err(e),
    };
    let p3 = match mark(chars, p2, ',') {
        Ok(p) => p,
        Err(e) => return Err(e),
    };
    let (b, p4) = match node(chars, p3) {
        Ok(t) => t,
        Err(e) => return Err(e),
    };
    match mark(chars, p4, ')') {
        Ok(p5) => Ok((Expr::Prim(Box::new(a), Box::new(b)), p5)),
        Err(e) => Err(e),
    }
}

/// Reads the text of a subexpression.
pub fn parse_eml(eml: &str) -> (r: Result<Expr, String>)
    ensures
        match read_subtree(eml@) {
            Ok(e) => r == Ok::<Expr, String>(e),
            Err(e) => r matches Err(message) && message@ == e,
        },
{
    let all = to_chars(eml);
    assert(all@.subrange(0, all@.len() as int) =~= eml@);
    let text = trimmed(&all, 0, all.len());
    let chars = to_chars(text.as_str());
    let (e, p) = match node(&chars, 0) {
        Ok(t) => t,
        Err(e) => return Err(e),
    };
    let end = get_blanks_end(&chars, p);
    if end == chars.len() || chars[end] == '[' {
        Ok(e)
    } else {
        let mut message = String::new();
        message.push_str("Unexpected trailing content after parse: '");
        push_range(&mut message, &chars, end, chars.len());
        message.push_str("'");
        assert(chars@.subrange(end as int, chars@.len() as int) =~= chars@.skip(end as int));
        assert(message@ =~= "Unexpected trailing content after parse: '"@ + chars@.skip(
            end as int,
        ) + "'"@);
        Err(message)
    }
}

} // verus!
