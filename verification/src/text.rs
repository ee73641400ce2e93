//! Text as sequences of characters.

use vstd::prelude::*;

verus! {

/// `String::push` appends one character to the end of a string.
pub assume_specification[ String::push ](s: &mut String, c: char)
    ensures
        final(s)@ == old(s)@.push(c),
;

/// `String::push_str` appends a string slice to the end of a string.
pub assume_specification[ String::push_str ](s: &mut String, tail: &str)
    ensures
        final(s)@ == old(s)@ + tail@,
;

/// The characters of `s`, in order.
pub fn to_chars(s: &str) -> (r: Vec<char>)
    ensures
        r@ == s@,
{
    let mut out: Vec<char> = Vec::new();
    for c in it: s.chars()
        invariant
            out@ == it.seq().take(it.index() as int),
            it.seq() == s@,
    {
        out.push(c);
        assert(it.seq().take(it.index() + 1) =~= it.seq().take(it.index() as int).push(c));
    }
    assert(s@.take(s@.len() as int) =~= s@);
    out
}

/// Appends the characters `from..to` of `chars` to `s`.
pub fn push_range(s: &mut String, chars: &Vec<char>, from: usize, to: usize)
    requires
        from <= to <= chars@.len(),
    ensures
        final(s)@ == old(s)@ + chars@.subrange(from as int, to as int),
{
    let mut i: usize = from;
    while i < to
        invariant
            from <= i <= to <= chars@.len(),
            s@ == old(s)@ + chars@.subrange(from as int, i as int),
        decreases to - i,
    {
        s.push(chars[i]);
        assert(chars@.subrange(from as int, i + 1) =~= chars@.subrange(from as int, i as int).push(chars@[i as int]));
        i += 1;
    }
}

/// The decimal digits of `n`, most significant first, without leading zeros.
pub open spec fn decimal(n: nat) -> Seq<char>
    decreases n,
{
    if n < 10 {
        seq![(n + 48) as char]
    } else {
        decimal(n / 10).push((n % 10 + 48) as char)
    }
}

/// The decimal text of `n`, with a leading minus sign when it is negative.
pub open spec fn signed_decimal(n: int) -> Seq<char> {
    if n < 0 {
        seq!['-'] + decimal((-n) as nat)
    } else {
        decimal(n as nat)
    }
}

fn digit_char(d: u64) -> (c: char)
    requires
        d < 10,
    ensures
        c == (d + 48) as char,
{
    (d as u8 + 48u8) as char
}

/// Appends the decimal text of `n` to `s`.
pub fn push_u64(s: &mut String, n: u64)
    ensures
        final(s)@ == old(s)@ + decimal(n as nat),
    decreases n,
{
    if n < 10 {
        s.push(digit_char(n));
        assert(s@ =~= old(s)@ + decimal(n as nat));
    } else {
        push_u64(s, n / 10);
        s.push(digit_char(n % 10));
        assert(s@ =~= old(s)@ + decimal(n as nat));
    }
}

/// Appends the decimal text of `n`, with its sign, to `s`.
pub fn push_i64(s: &mut String, n: i64)
    ensures
        final(s)@ == old(s)@ + signed_decimal(n as int),
{
    if n < 0 {
        s.push('-');
        let m: u64 = if n == i64::MIN { 0x8000_0000_0000_0000 } else { (-n) as u64 };
        push_u64(s, m);
        assert(s@ =~= old(s)@ + signed_decimal(n as int));
    } else {
        push_u64(s, n as u64);
    }
}

pub open spec fn is_digit(c: char) -> bool {
    '0' <= c <= '9'
}

pub fn check_digit(c: char) -> (r: bool)
    ensures
        r == is_digit(c),
{
    '0' <= c && c <= '9'
}

pub open spec fn all_digits(s: Seq<char>) -> bool {
    forall|i: int| 0 <= i < s.len() ==> is_digit(#[trigger] s[i])
}

/// The number that the decimal digits `s` stand for.
pub open spec fn digits_value(s: Seq<char>) -> nat
    decreases s.len(),
{
    if s.len() == 0 {
        0
    } else {
        digits_value(s.drop_last()) * 10 + (s.last() as nat - 48) as nat
    }
}

/// More digits never stand for a smaller number.
proof fn lemma_digits_value_grows(s: Seq<char>, k: int)
    requires
        0 <= k <= s.len(),
    ensures
        digits_value(s.take(k)) <= digits_value(s),
    decreases s.len(),
{
    if k < s.len() {
        lemma_digits_value_grows(s.drop_last(), k);
        assert(s.drop_last().take(k) =~= s.take(k));
    } else {
        assert(s.take(k) =~= s);
    }
}

/// The number that the characters from `from` on stand for, when they are decimal digits, there
/// is one at least, and the number is at most `max`.
pub fn parse_digits(chars: &Vec<char>, from: usize, max: u64) -> (r: Option<u64>)
    requires
        from <= chars@.len(),
    ensures
        ({
            let s = chars@.skip(from as int);
            r == (if s.len() > 0 && all_digits(s) && digits_value(s) <= max {
                Some(digits_value(s) as u64)
            } else {
                None
            })
        }),
{
    let ghost s = chars@.skip(from as int);
    if from == chars.len() {
        return None;
    }
    let mut value: u64 = 0;
    let mut i: usize = from;
    assert(s.take(0) =~= Seq::<char>::empty());
    while i < chars.len()
        invariant
            from <= i <= chars@.len(),
            s == chars@.skip(from as int),
            s.len() == chars@.len() - from,
            all_digits(s.take(i - from)),
            value == digits_value(s.take(i - from)),
            value <= max,
        decreases chars@.len() - i,
    {
        let c = chars[i];
        assert(s[i - from] == c);
        if !check_digit(c) {
            return None;
        }
        let d = (c as u32 - 48) as u64;
        let ghost next = s.take(i - from + 1);
        proof {
            assert(next.drop_last() =~= s.take(i - from));
            assert(digits_value(next) == value * 10 + d);
            lemma_digits_value_grows(s, i - from + 1);
            assert forall|j: int| 0 <= j < next.len() implies is_digit(#[trigger] next[j]) by {
                if j < i - from {
                    assert(next[j] == s.take(i - from)[j]);
                }
            }
        }
        value = match value.checked_mul(10) {
            Some(tens) => match tens.checked_add(d) {
                Some(v) => if v <= max {
                    v
                } else {
                    return None;
                },
                None => return None,
            },
            None => return None,
        };
        i += 1;
    }
    assert(s.take(s.len() as int) =~= s);
    Some(value)
}

/// The decimal text of a number is made of digits that stand for it.
pub proof fn lemma_decimal_value(n: nat)
    ensures
        decimal(n).len() > 0,
        all_digits(decimal(n)),
        digits_value(decimal(n)) == n,
    decreases n,
{
    if n >= 10 {
        lemma_decimal_value(n / 10);
        assert(decimal(n).drop_last() =~= decimal(n / 10));
    } else {
        assert(decimal(n).drop_last() =~= Seq::<char>::empty());
        assert(digits_value(Seq::<char>::empty()) == 0);
    }
    assert(decimal(n).last() as nat == n % 10 + 48);
}

/// `c` has the Unicode property `White_Space`.
pub open spec fn is_blank(c: char) -> bool {
    let n = c as int;
    9 <= n <= 13 || n == 0x20 || n == 0x85 || n == 0xa0 || n == 0x1680 || 0x2000 <= n <= 0x200a
        || n == 0x2028 || n == 0x2029 || n == 0x202f || n == 0x205f || n == 0x3000
}

pub fn check_blank(c: char) -> (r: bool)
    ensures
        r == is_blank(c),
{
    let n = c as u32;
    9 <= n && n <= 13 || n == 0x20 || n == 0x85 || n == 0xa0 || n == 0x1680 || 0x2000 <= n && n
        <= 0x200a || n == 0x2028 || n == 0x2029 || n == 0x202f || n == 0x205f || n == 0x3000
}

/// No line break stands in `l`.
pub open spec fn one_line(l: Seq<char>) -> bool {
    forall|i: int| 0 <= i < l.len() ==> #[trigger] l[i] != '\n'
}

/// `l` is a line with something in it, and no blank at its ends.
pub open spec fn plain_line(l: Seq<char>) -> bool {
    one_line(l) && l.len() > 0 && !is_blank(l[0]) && !is_blank(l.last())
}

/// `t` is not empty and holds no blank.
pub open spec fn solid(t: Seq<char>) -> bool {
    t.len() > 0 && forall|i: int| 0 <= i < t.len() ==> !is_blank(#[trigger] t[i])
}

/// What holds no blank is a line.
pub proof fn lemma_solid(t: Seq<char>)
    requires
        solid(t),
    ensures
        plain_line(t),
{
    assert forall|i: int| 0 <= i < t.len() implies #[trigger] t[i] != '\n' by {
        assert(!is_blank(t[i]));
    }
    assert(!is_blank(t[0]) && !is_blank(t[t.len() - 1]));
}

/// Lines put together, with something between them that holds no line break, are a line.
pub proof fn lemma_joined(a: Seq<char>, m: Seq<char>, b: Seq<char>)
    requires
        plain_line(a),
        one_line(m),
        plain_line(b),
    ensures
        plain_line(a + m + b),
{
    let l = a + m + b;
    assert(l[0] == a[0]);
    assert(l.last() == b.last());
    assert forall|i: int| 0 <= i < l.len() implies #[trigger] l[i] != '\n' by {
        if i < a.len() {
            assert(l[i] == a[i]);
        } else if i < a.len() + m.len() {
            assert(l[i] == m[i - a.len()]);
        } else {
            assert(l[i] == b[i - a.len() - m.len()]);
        }
    }
}

/// What holds no blank still holds none when it is put together.
pub proof fn lemma_solid_joined(a: Seq<char>, b: Seq<char>)
    requires
        solid(a),
        solid(b),
    ensures
        solid(a + b),
{
    assert forall|i: int| 0 <= i < (a + b).len() implies !is_blank(#[trigger] (a + b)[i]) by {
        if i < a.len() {
            assert(!is_blank(a[i]));
        } else {
            assert(!is_blank(b[i - a.len()]));
        }
    }
}

/// A whole number is written without blanks.
pub proof fn lemma_signed_solid(n: int)
    ensures
        solid(signed_decimal(n)),
{
    let m = if n < 0 {
        -n
    } else {
        n
    };
    let d = decimal(m as nat);
    lemma_decimal_value(m as nat);
    assert forall|i: int| 0 <= i < signed_decimal(n).len() implies !is_blank(
        #[trigger] signed_decimal(n)[i],
    ) by {
        if n < 0 {
            if i > 0 {
                assert(signed_decimal(n)[i] == d[i - 1]);
                assert(is_digit(d[i - 1]));
            }
        } else {
            assert(is_digit(d[i]));
        }
    }
}

/// The first place from `p` on that holds no blank.
pub open spec fn skip_blanks(s: Seq<char>, p: int) -> int
    decreases s.len() - p,
{
    if 0 <= p < s.len() && is_blank(s[p]) {
        skip_blanks(s, p + 1)
    } else {
        p
    }
}

/// `c` stands at place `p`.
pub open spec fn at(s: Seq<char>, p: int, c: char) -> bool {
    0 <= p < s.len() && s[p] == c
}

pub proof fn lemma_skip_blanks(s: Seq<char>, p: int)
    requires
        0 <= p <= s.len(),
    ensures
        p <= skip_blanks(s, p) <= s.len(),
        skip_blanks(s, p) < s.len() ==> !is_blank(s[skip_blanks(s, p)]),
    decreases s.len() - p,
{
    if p < s.len() && is_blank(s[p]) {
        lemma_skip_blanks(s, p + 1);
    }
}

/// The first place from `pos` on that holds no blank.
pub fn get_blanks_end(chars: &Vec<char>, pos: usize) -> (r: usize)
    requires
        pos <= chars@.len(),
    ensures
        r == skip_blanks(chars@, pos as int),
        pos <= r <= chars@.len(),
{
    let mut p: usize = pos;
    while p < chars.len() && check_blank(chars[p])
        invariant
            pos <= p <= chars@.len(),
            skip_blanks(chars@, pos as int) == skip_blanks(chars@, p as int),
        decreases chars@.len() - p,
    {
        p += 1;
    }
    p
}

pub fn check_at(chars: &Vec<char>, pos: usize, c: char) -> (r: bool)
    ensures
        r == at(chars@, pos as int, c),
        r ==> pos < usize::MAX,
{
    pos < chars.len() && chars[pos] == c
}

/// Whether the characters `from..to` are `word`.
pub fn check_word(chars: &Vec<char>, from: usize, to: usize, word: &str) -> (r: bool)
    requires
        from <= to <= chars@.len(),
    ensures
        r == (chars@.subrange(from as int, to as int) == word@),
{
    let w = to_chars(word);
    let ghost piece = chars@.subrange(from as int, to as int);
    if w.len() != to - from {
        return false;
    }
    let mut i: usize = 0;
    while i < w.len()
        invariant
            from <= to <= chars@.len(),
            w@ == word@,
            w@.len() == to - from,
            i <= w@.len(),
            piece == chars@.subrange(from as int, to as int),
            forall|j: int| 0 <= j < i ==> #[trigger] piece[j] == w@[j],
        decreases w@.len() - i,
    {
        assert(piece[i as int] == chars@[from + i]);
        if w[i] != chars[from + i] {
            return false;
        }
        i += 1;
    }
    assert(piece =~= word@);
    true
}

/// The characters `from..to`.
pub fn slice(chars: &Vec<char>, from: usize, to: usize) -> (r: Vec<char>)
    requires
        from <= to <= chars@.len(),
    ensures
        r@ == chars@.subrange(from as int, to as int),
{
    let mut r: Vec<char> = Vec::new();
    let mut i: usize = from;
    while i < to
        invariant
            from <= i <= to <= chars@.len(),
            r@ == chars@.subrange(from as int, i as int),
        decreases to - i,
    {
        r.push(chars[i]);
        i += 1;
        assert(r@ =~= chars@.subrange(from as int, i as int));
    }
    r
}

} // verus!
