//! Reading a catalog of constant subexpressions back from its text.
//!
//! An entry starts with a line `id <number>:` and goes on to the next such line. In it the lines
//! `Symbolic Value : ...` and `EML Subtree : ...` are looked for.

use vstd::prelude::*;

use crate::parser::is_ascii;
use crate::text::{
    all_digits, at, check_at, check_blank, check_digit, check_word, decimal, digits_value,
    get_blanks_end, is_blank, is_digit, parse_digits, push_range, push_u64, skip_blanks, slice,
    to_chars,
};

verus! {

/// A character outside ASCII has the Unicode general category `Nd`.
pub uninterp spec fn unicode_digit(c: char) -> bool;

/// `Regex::is_match` of the class of decimal digits, on a text of one character: the result is
/// named.
#[verifier::external_body]
fn regex_is_digit(c: char) -> (r: bool)
    ensures
        r == unicode_digit(c),
{
    regex::Regex::new("^\\d$").unwrap().is_match(&c.to_string())
}

/// `c` is a decimal digit of some script.
pub open spec fn is_any_digit(c: char) -> bool {
    if is_ascii(c) {
        is_digit(c)
    } else {
        unicode_digit(c)
    }
}

fn check_any_digit(c: char) -> (r: bool)
    ensures
        r == is_any_digit(c),
{
    if c as u32 <= 0x7f {
        check_digit(c)
    } else {
        regex_is_digit(c)
    }
}

/// The first place from `p` on that holds no digit of any script.
pub open spec fn any_digits_end(s: Seq<char>, p: int) -> int
    decreases s.len() - p,
{
    if 0 <= p < s.len() && is_any_digit(s[p]) {
        any_digits_end(s, p + 1)
    } else {
        p
    }
}

pub(crate) fn get_any_digits_end(chars: &Vec<char>, pos: usize) -> (r: usize)
    requires
        pos <= chars@.len(),
    ensures
        r == any_digits_end(chars@, pos as int),
        pos <= r <= chars@.len(),
{
    let mut p: usize = pos;
    while p < chars.len() && check_any_digit(chars[p])
        invariant
            pos <= p <= chars@.len(),
            any_digits_end(chars@, pos as int) == any_digits_end(chars@, p as int),
        decreases chars@.len() - p,
    {
        p += 1;
    }
    p
}

/// A line starts at `p`.
pub open spec fn line_start(s: Seq<char>, p: int) -> bool {
    p == 0 || (0 < p <= s.len() && s[p - 1] == '\n')
}

/// Nothing but blanks stands between a start of a line and `p`.
pub open spec fn indented(s: Seq<char>, p: int) -> bool
    decreases p,
{
    line_start(s, p) || (0 < p <= s.len() && is_blank(s[p - 1]) && indented(s, p - 1))
}

/// The first start of a line from which on there is nothing but blanks up to `p`.
pub open spec fn margin(s: Seq<char>, p: int) -> int
    decreases p,
{
    if 0 < p <= s.len() && is_blank(s[p - 1]) && indented(s, p - 1) {
        margin(s, p - 1)
    } else {
        p
    }
}

/// Nothing but blanks stands from `p` to the end of the line.
pub open spec fn line_blank(s: Seq<char>, p: int) -> bool
    decreases s.len() - p,
{
    !(0 <= p < s.len()) || s[p] == '\n' || (is_blank(s[p]) && line_blank(s, p + 1))
}

/// Where the line that `p` is in ends.
pub open spec fn line_end(s: Seq<char>, p: int) -> int
    decreases s.len() - p,
{
    if 0 <= p < s.len() && s[p] != '\n' {
        line_end(s, p + 1)
    } else {
        p
    }
}

/// `word` stands at place `p`.
pub open spec fn word_at(s: Seq<char>, p: int, word: Seq<char>) -> bool {
    0 <= p && p + word.len() <= s.len() && s.subrange(p, p + word.len()) == word
}

fn check_line_start(chars: &Vec<char>, p: usize) -> (r: bool)
    requires
        p <= chars@.len(),
    ensures
        r == line_start(chars@, p as int),
{
    p == 0 || chars[p - 1] == '\n'
}

fn check_indented(chars: &Vec<char>, p: usize) -> (r: bool)
    requires
        p <= chars@.len(),
    ensures
        r == indented(chars@, p as int),
{
    let mut q: usize = p;
    while q > 0 && chars[q - 1] != '\n' && check_blank(chars[q - 1])
        invariant
            q <= p <= chars@.len(),
            indented(chars@, p as int) == indented(chars@, q as int),
        decreases q,
    {
        q -= 1;
    }
    check_line_start(chars, q)
}

fn get_margin(chars: &Vec<char>, p: usize) -> (r: usize)
    requires
        p <= chars@.len(),
    ensures
        r == margin(chars@, p as int),
        r <= p,
{
    let mut q: usize = p;
    while q > 0 && check_blank(chars[q - 1]) && check_indented(chars, q - 1)
        invariant
            q <= p <= chars@.len(),
            margin(chars@, p as int) == margin(chars@, q as int),
        decreases q,
    {
        q -= 1;
    }
    q
}

fn check_line_blank(chars: &Vec<char>, p: usize) -> (r: bool)
    requires
        p <= chars@.len(),
    ensures
        r == line_blank(chars@, p as int),
{
    let mut q: usize = p;
    while q < chars.len() && chars[q] != '\n' && check_blank(chars[q])
        invariant
            q <= chars@.len(),
            line_blank(chars@, p as int) == line_blank(chars@, q as int),
        decreases chars@.len() - q,
    {
        q += 1;
    }
    q == chars.len() || chars[q] == '\n'
}

fn get_line_end(chars: &Vec<char>, p: usize) -> (r: usize)
    requires
        p <= chars@.len(),
    ensures
        r == line_end(chars@, p as int),
        p <= r <= chars@.len(),
{
    let mut q: usize = p;
    while q < chars.len() && chars[q] != '\n'
        invariant
            p <= q <= chars@.len(),
            line_end(chars@, p as int) == line_end(chars@, q as int),
        decreases chars@.len() - q,
    {
        q += 1;
    }
    q
}

fn check_word_at(chars: &Vec<char>, p: usize, word: &str) -> (r: bool)
    requires
        p <= chars@.len(),
    ensures
        r == word_at(chars@, p as int, word@),
        r ==> p + word@.len() <= chars@.len() <= usize::MAX,
{
    let n = to_chars(word).len();
    if n > chars.len() - p {
        return false;
    }
    check_word(chars, p, p + n, word)
}

/// Where the digits stand in the first line of an entry, when such a line has its `id` at `p`:
/// the word, blanks, digits and a colon, and nothing but blanks behind.
pub open spec fn header(s: Seq<char>, p: int) -> Option<(int, int)> {
    let from = skip_blanks(s, p + 2);
    let to = any_digits_end(s, from);
    if word_at(s, p, "id"@) && from > p + 2 && to > from && at(s, to, ':') && line_blank(s, to + 1) {
        Some((from, to))
    } else {
        None
    }
}

fn get_header(chars: &Vec<char>, p: usize) -> (r: Option<(usize, usize)>)
    requires
        p <= chars@.len(),
    ensures
        match r {
            Some((from, to)) => header(chars@, p as int) == Some((from as int, to as int)) && from
                < to < chars@.len(),
            None => header(chars@, p as int) is None,
        },
{
    proof {
        reveal_strlit("id");
    }
    if !check_word_at(chars, p, "id") {
        return None;
    }
    let from = get_blanks_end(chars, p + 2);
    let to = get_any_digits_end(chars, from);
    if from > p + 2 && to > from && check_at(chars, to, ':') && check_line_blank(chars, to + 1) {
        Some((from, to))
    } else {
        None
    }
}

/// Why there is no largest id.
#[derive(Debug)]
pub enum MaxIdError {
    /// No line is the first of an entry.
    NoIds,
    /// The digits of an id are no number that fits.
    BadId(String),
}

/// The largest id from `p` on, if there is an id, or the first digits that are no number that
/// fits.
pub open spec fn ids_from(s: Seq<char>, p: int) -> Result<Option<nat>, Seq<char>>
    decreases s.len() - p,
{
    if !(0 <= p < s.len()) {
        Ok(None)
    } else {
        let rest = ids_from(s, p + 1);
        match header(s, p) {
            Some((from, to)) => if indented(s, p) {
                let digits = s.subrange(from, to);
                if all_digits(digits) && digits_value(digits) <= usize::MAX {
                    match rest {
                        Ok(Some(n)) => if n > digits_value(digits) {
                            Ok(Some(n))
                        } else {
                            Ok(Some(digits_value(digits)))
                        },
                        Ok(None) => Ok(Some(digits_value(digits))),
                        Err(e) => Err(e),
                    }
                } else {
                    Err(digits)
                }
            } else {
                rest
            },
            None => rest,
        }
    }
}

/// The larger of the two, as far as they are there.
spec fn larger(best: Option<nat>, rest: Result<Option<nat>, Seq<char>>) -> Result<
    Option<nat>,
    Seq<char>,
> {
    match (best, rest) {
        (Some(m), Ok(Some(n))) => if n > m {
            rest
        } else {
            Ok(best)
        },
        (Some(_), Ok(None)) => Ok(best),
        _ => rest,
    }
}

/// The largest id in the text of a catalog.
pub fn find_max_id_in_catalog(text: &str) -> (r: Result<usize, MaxIdError>)
    ensures
        match r {
            Ok(n) => ids_from(text@, 0) == Ok::<Option<nat>, Seq<char>>(Some(n as nat)),
            Err(MaxIdError::NoIds) => ids_from(text@, 0) == Ok::<Option<nat>, Seq<char>>(None),
            Err(MaxIdError::BadId(digits)) => ids_from(text@, 0) == Err::<Option<nat>, Seq<char>>(
                digits@,
            ),
        },
{
    let chars = to_chars(text);
    let mut best: Option<usize> = None;
    let mut p: usize = 0;
    while p < chars.len()
        invariant
            chars@ == text@,
            p <= chars@.len(),
            ids_from(text@, 0) == larger(
                match best {
                    Some(n) => Some(n as nat),
                    None => None,
                },
                ids_from(text@, p as int),
            ),
        decreases chars@.len() - p,
    {
        if let Some((from, to)) = get_header(&chars, p) {
            if check_indented(&chars, p) {
                let digits = slice(&chars, from, to);
                assert(digits@.skip(0) =~= digits@);
                match parse_digits(&digits, 0, usize::MAX as u64) {
                    Some(n) => {
                        let larger_one = match best {
                            Some(m) => m as u64 >= n,
                            None => false,
                        };
                        if !larger_one {
                            best = Some(n as usize);
                        }
                    },
                    None => {
                        let mut bad = String::new();
                        push_range(&mut bad, &chars, from, to);
                        assert(bad@ =~= digits@);
                        return Err(MaxIdError::BadId(bad));
                    },
                }
            }
        }
        p += 1;
    }
    match best {
        Some(n) => Ok(n),
        None => Err(MaxIdError::NoIds),
    }
}

/// Where the last line break before `to` stands, but not before `from`; `from` if there is none.
pub open spec fn last_break(s: Seq<char>, from: int, to: int) -> int
    decreases to - from,
{
    if to <= from {
        from
    } else if s[to - 1] == '\n' {
        to - 1
    } else {
        last_break(s, from, to - 1)
    }
}

/// Where the first line of entry `n` ends, blank lines behind it included, when it starts at
/// `p`.
pub open spec fn entry_start(s: Seq<char>, p: int, n: nat) -> Option<int> {
    let from = skip_blanks(s, p + 2);
    let colon = from + decimal(n).len();
    if line_start(s, p) && word_at(s, p, "id"@) && from > p + 2 && word_at(s, from, decimal(n))
        && at(s, colon, ':') && line_blank(s, colon + 1) {
        let end = skip_blanks(s, colon + 1);
        if end == s.len() {
            Some(end)
        } else {
            Some(last_break(s, colon + 1, end))
        }
    } else {
        None
    }
}

/// Where what follows the first line of entry `n` starts, looked for from `p` on.
pub open spec fn find_entry(s: Seq<char>, p: int, n: nat) -> Option<int>
    decreases s.len() - p,
{
    if !(0 <= p < s.len()) {
        None
    } else if entry_start(s, p, n) is Some {
        entry_start(s, p, n)
    } else {
        find_entry(s, p + 1, n)
    }
}

/// Where the lines of an entry end, looked for from `p` on: before the first line of another
/// entry, blank lines included, or at the end.
pub open spec fn entry_end(s: Seq<char>, p: int) -> int
    decreases s.len() - p,
{
    if !(0 <= p < s.len()) {
        s.len() as int
    } else if header(s, p) is Some && indented(s, p) {
        margin(s, p)
    } else {
        entry_end(s, p + 1)
    }
}

/// `s` without the blanks at its ends.
pub open spec fn trim(s: Seq<char>) -> Seq<char> {
    let (from, to) = (skip_blanks(s, 0), blanks_start(s, s.len() as int));
    if from < to {
        s.subrange(from, to)
    } else {
        Seq::empty()
    }
}

/// Where the blanks before `p` start.
pub open spec fn blanks_start(s: Seq<char>, p: int) -> int
    decreases p,
{
    if 0 < p <= s.len() && is_blank(s[p - 1]) {
        blanks_start(s, p - 1)
    } else {
        p
    }
}

/// A blank that is no line break stands from `p` on.
pub open spec fn blank_in_line(s: Seq<char>, p: int) -> bool {
    exists|i: int| p <= i < s.len() && is_blank(#[trigger] s[i]) && s[i] != '\n'
}

/// The value in a line that starts with `label` at `p`: what follows the colon and blanks, to the
/// end of the line. When nothing but blanks follows to the end of the text, it is empty, as long
/// as one of them is no line break.
pub open spec fn field_at(s: Seq<char>, p: int, label: Seq<char>) -> Option<Seq<char>> {
    let colon = skip_blanks(s, p + label.len());
    let value = skip_blanks(s, colon + 1);
    if !(indented(s, p) && word_at(s, p, label) && at(s, colon, ':')) {
        None
    } else if value < s.len() {
        Some(trim(s.subrange(value, line_end(s, value))))
    } else if blank_in_line(s, colon + 1) {
        Some(Seq::empty())
    } else {
        None
    }
}

/// The first value in a line that starts with `label`, looked for from `p` on.
pub open spec fn find_field(s: Seq<char>, p: int, label: Seq<char>) -> Option<Seq<char>>
    decreases s.len() - p,
{
    if !(0 <= p < s.len()) {
        None
    } else if field_at(s, p, label) is Some {
        field_at(s, p, label)
    } else {
        find_field(s, p + 1, label)
    }
}

/// Where the line that `p` is in starts.
pub open spec fn line_begin(s: Seq<char>, p: int) -> int
    decreases p,
{
    if 0 < p <= s.len() && s[p - 1] != '\n' {
        line_begin(s, p - 1)
    } else {
        p
    }
}

/// Where the first colon from `p` on stands, but before `end`; `end` if there is none.
pub open spec fn colon_from(s: Seq<char>, p: int, end: int) -> int
    decreases end - p,
{
    if p >= end || s[p] == ':' {
        p
    } else {
        colon_from(s, p + 1, end)
    }
}

/// What follows the first colon of the line that `p` is in.
pub open spec fn after_colon(s: Seq<char>, p: int) -> Seq<char> {
    let end = line_end(s, p);
    let colon = colon_from(s, line_begin(s, p), end);
    if colon < end {
        trim(s.subrange(colon + 1, end))
    } else {
        Seq::empty()
    }
}

/// What follows the first colon of the first line that holds `label`, looked for from `p` on.
pub open spec fn find_loose_field(s: Seq<char>, p: int, label: Seq<char>) -> Option<Seq<char>>
    decreases s.len() - p,
{
    if !(0 <= p < s.len()) {
        None
    } else if word_at(s, p, label) {
        Some(after_colon(s, p))
    } else {
        find_loose_field(s, p + 1, label)
    }
}

/// The value of `label` in the lines of an entry: that of a line that starts with it, or else
/// that of a line that holds it.
pub open spec fn field(block: Seq<char>, label: Seq<char>) -> Option<Seq<char>> {
    match find_field(block, 0, label) {
        Some(v) => Some(v),
        None => find_loose_field(block, 0, label),
    }
}

/// The lines of entry `n`, without the first.
pub open spec fn entry_lines(s: Seq<char>, n: nat) -> Option<Seq<char>> {
    match find_entry(s, 0, n) {
        Some(start) => {
            let rest = s.skip(start);
            Some(rest.take(entry_end(rest, 0)))
        },
        None => None,
    }
}

/// Why an entry cannot be read.
#[derive(Debug, Clone, Copy, PartialEq, Eq, Structural)]
pub enum EntryError {
    /// There is no such entry.
    NotFound,
    /// The entry has no line for the subexpression.
    NoSubtree,
}

fn get_last_break(chars: &Vec<char>, from: usize, to: usize) -> (r: usize)
    requires
        from <= to <= chars@.len(),
    ensures
        r == last_break(chars@, from as int, to as int),
        from <= r <= to,
{
    let mut q: usize = to;
    while q > from && chars[q - 1] != '\n'
        invariant
            from <= q <= to <= chars@.len(),
            last_break(chars@, from as int, to as int) == last_break(chars@, from as int, q as int),
        decreases q,
    {
        q -= 1;
    }
    if q > from {
        q - 1
    } else {
        from
    }
}

fn get_entry_start(chars: &Vec<char>, p: usize, number: &str, Ghost(n): Ghost<nat>) -> (r: Option<
    usize,
>)
    requires
        p <= chars@.len(),
        number@ == decimal(n),
    ensures
        match r {
            Some(start) => entry_start(chars@, p as int, n) == Some(start as int) && start
                <= chars@.len(),
            None => entry_start(chars@, p as int, n) is None,
        },
{
    proof {
        reveal_strlit("id");
    }
    if !check_line_start(chars, p) || !check_word_at(chars, p, "id") {
        return None;
    }
    let from = get_blanks_end(chars, p + 2);
    if from == p + 2 || !check_word_at(chars, from, number) {
        return None;
    }
    let colon = from + to_chars(number).len();
    if !check_at(chars, colon, ':') || !check_line_blank(chars, colon + 1) {
        return None;
    }
    let end = get_blanks_end(chars, colon + 1);
    if end == chars.len() {
        Some(end)
    } else {
        Some(get_last_break(chars, colon + 1, end))
    }
}

fn get_entry_end(chars: &Vec<char>) -> (r: usize)
    ensures
        r == entry_end(chars@, 0),
        r <= chars@.len(),
{
    let mut p: usize = 0;
    while p < chars.len()
        invariant
            p <= chars@.len(),
            entry_end(chars@, 0) == entry_end(chars@, p as int),
        decreases chars@.len() - p,
    {
        if get_header(chars, p).is_some() && check_indented(chars, p) {
            return get_margin(chars, p);
        }
        p += 1;
    }
    p
}

/// The characters `from..to` without the blanks at their ends.
pub(crate) fn trimmed(chars: &Vec<char>, from: usize, to: usize) -> (r: String)
    requires
        from <= to <= chars@.len(),
    ensures
        r@ == trim(chars@.subrange(from as int, to as int)),
{
    let piece = slice(chars, from, to);
    let a = get_blanks_end(&piece, 0);
    let mut b = piece.len();
    while b > 0 && check_blank(piece[b - 1])
        invariant
            b <= piece@.len(),
            blanks_start(piece@, piece@.len() as int) == blanks_start(piece@, b as int),
        decreases b,
    {
        b -= 1;
    }
    let mut r = String::new();
    if a < b {
        push_range(&mut r, &piece, a, b);
    }
    assert(r@ =~= trim(piece@));
    r
}

fn check_blank_in_line(chars: &Vec<char>, p: usize) -> (r: bool)
    requires
        p <= chars@.len(),
    ensures
        r == blank_in_line(chars@, p as int),
{
    let mut q: usize = p;
    while q < chars.len()
        invariant
            p <= q <= chars@.len(),
            forall|i: int| p <= i < q ==> !(is_blank(#[trigger] chars@[i]) && chars@[i] != '\n'),
        decreases chars@.len() - q,
    {
        if check_blank(chars[q]) && chars[q] != '\n' {
            assert(is_blank(chars@[q as int]));
            return true;
        }
        q += 1;
    }
    false
}

fn get_field_at(chars: &Vec<char>, p: usize, label: &str) -> (r: Option<String>)
    requires
        p <= chars@.len(),
    ensures
        match r {
            Some(v) => field_at(chars@, p as int, label@) == Some(v@),
            None => field_at(chars@, p as int, label@) is None,
        },
{
    if !check_indented(chars, p) || !check_word_at(chars, p, label) {
        return None;
    }
    let colon = get_blanks_end(chars, p + to_chars(label).len());
    if !check_at(chars, colon, ':') {
        return None;
    }
    let value = get_blanks_end(chars, colon + 1);
    if value < chars.len() {
        let end = get_line_end(chars, value);
        Some(trimmed(chars, value, end))
    } else if check_blank_in_line(chars, colon + 1) {
        let empty = String::new();
        assert(empty@ =~= Seq::<char>::empty());
        Some(empty)
    } else {
        None
    }
}

fn get_after_colon(chars: &Vec<char>, p: usize) -> (r: String)
    requires
        p <= chars@.len(),
    ensures
        r@ == after_colon(chars@, p as int),
{
    let end = get_line_end(chars, p);
    let mut begin: usize = p;
    while begin > 0 && chars[begin - 1] != '\n'
        invariant
            begin <= p <= chars@.len(),
            line_begin(chars@, p as int) == line_begin(chars@, begin as int),
        decreases begin,
    {
        begin -= 1;
    }
    let mut colon: usize = begin;
    while colon < end && chars[colon] != ':'
        invariant
            begin <= colon <= end <= chars@.len(),
            colon_from(chars@, begin as int, end as int) == colon_from(
                chars@,
                colon as int,
                end as int,
            ),
        decreases end - colon,
    {
        colon += 1;
    }
    if colon < end {
        trimmed(chars, colon + 1, end)
    } else {
        let empty = String::new();
        assert(empty@ =~= Seq::<char>::empty());
        empty
    }
}

fn get_field(chars: &Vec<char>, label: &str) -> (r: Option<String>)
    ensures
        match r {
            Some(v) => field(chars@, label@) == Some(v@),
            None => field(chars@, label@) is None,
        },
{
    let mut p: usize = 0;
    while p < chars.len()
        invariant
            p <= chars@.len(),
            find_field(chars@, 0, label@) == find_field(chars@, p as int, label@),
        decreases chars@.len() - p,
    {
        if let Some(v) = get_field_at(chars, p, label) {
            return Some(v);
        }
        p += 1;
    }
    let mut q: usize = 0;
    while q < chars.len()
        invariant
            q <= chars@.len(),
            find_field(chars@, 0, label@) is None,
            find_loose_field(chars@, 0, label@) == find_loose_field(chars@, q as int, label@),
        decreases chars@.len() - q,
    {
        if check_word_at(chars, q, label) {
            return Some(get_after_colon(chars, q));
        }
        q += 1;
    }
    None
}

/// Reads entry `target_id` from the text of a catalog: the symbolic value, which is `<unknown>`
/// when there is no line for it, and the text of the subexpression.
pub fn load_catalog_entry(text: &str, target_id: usize) -> (r: Result<(String, String), EntryError>)
    ensures
        match entry_lines(text@, target_id as nat) {
            None => r == Err::<(String, String), EntryError>(EntryError::NotFound),
            Some(lines) => match field(lines, "EML Subtree"@) {
                None => r == Err::<(String, String), EntryError>(EntryError::NoSubtree),
                Some(eml) => r matches Ok((sym, subtree)) && subtree@ == eml && sym@ == (
                match field(lines, "Symbolic Value"@) {
                    Some(v) => v,
                    None => "<unknown>"@,
                }),
            },
        },
{
    let chars = to_chars(text);
    let ghost n = target_id as nat;
    let mut number = String::new();
    push_u64(&mut number, target_id as u64);
    assert(number@ =~= decimal(n));
    let mut start: Option<usize> = None;
    let mut p: usize = 0;
    while p < chars.len() && start.is_none()
        invariant
            chars@ == text@,
            number@ == decimal(n),
            p <= chars@.len(),
            match start {
                Some(at) => find_entry(text@, 0, n) == Some(at as int) && at <= chars@.len(),
                None => find_entry(text@, 0, n) == find_entry(text@, p as int, n),
            },
        decreases chars@.len() - p,
    {
        start = get_entry_start(&chars, p, number.as_str(), Ghost(n));
        p += 1;
    }
    let from = match start {
        Some(at) => at,
        None => return Err(EntryError::NotFound),
    };
    let rest = slice(&chars, from, chars.len());
    assert(rest@ =~= text@.skip(from as int));
    let end = get_entry_end(&rest);
    let block = slice(&rest, 0, end);
    assert(block@ =~= rest@.take(end as int));
    let sym = match get_field(&block, "Symbolic Value") {
        Some(v) => v,
        None => "<unknown>".to_owned(),
    };
    match get_field(&block, "EML Subtree") {
        Some(eml) => Ok((sym, eml)),
        None => Err(EntryError::NoSubtree),
    }
}

} // verus!
