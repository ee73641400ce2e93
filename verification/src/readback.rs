//! What is read from the text of a catalog is what was written.

use vstd::prelude::*;

use crate::catalog::{
    catalog_text, entry_plain, entry_text, heading, number_text, CatalogEntry,
};
use crate::listing::{
    any_digits_end, blanks_start, entry_end, entry_lines, entry_start, field, field_at, find_entry,
    find_field, header, ids_from, indented, last_break, line_blank, line_end, line_start, margin,
    trim, word_at,
};
use crate::symbolic::clean_text;
use crate::text::{
    at, decimal, is_blank, is_digit, lemma_decimal_value, one_line, plain_line, skip_blanks,
};

verus! {

/// The lines, each with a line break behind it.
spec fn lines_text(lines: Seq<Seq<char>>) -> Seq<char>
    decreases lines.len(),
{
    if lines.len() == 0 {
        Seq::empty()
    } else {
        lines_text(lines.drop_last()) + lines.last() + seq!['\n']
    }
}

/// Where line `k` starts.
spec fn offset(lines: Seq<Seq<char>>, k: int) -> int {
    lines_text(lines.take(k)).len() as int
}

/// What stands where line `k` is.
proof fn lemma_line(lines: Seq<Seq<char>>, k: int)
    requires
        0 <= k < lines.len(),
    ensures
        ({
            let t = lines_text(lines);
            let o = offset(lines, k);
            let n = lines[k].len();
            &&& offset(lines, k + 1) == o + n + 1
            &&& o + n + 1 <= t.len()
            &&& t[o + n] == '\n'
            &&& forall|i: int| o <= i < o + n ==> #[trigger] t[i] == lines[k][i - o]
            &&& t.subrange(o, o + n) == lines[k]
        }),
    decreases lines.len(),
{
    let t = lines_text(lines);
    let short = lines.drop_last();
    let o = offset(lines, k);
    let n = lines[k].len();
    assert(lines.take(k + 1).drop_last() =~= lines.take(k));
    assert(lines.take(k + 1).last() == lines[k]);
    if k == lines.len() - 1 {
        assert(lines.take(k) =~= short);
    } else {
        lemma_line(short, k);
        assert(short.take(k) =~= lines.take(k));
        assert(short[k] == lines[k]);
        assert forall|i: int| o <= i < o + n implies #[trigger] t[i] == lines[k][i - o] by {
            assert(lines_text(short)[i] == lines[k][i - o]);
        }
    }
    assert(t.subrange(o, o + n) =~= lines[k]);
}

/// The first line starts at the start, and the text ends behind the last.
proof fn lemma_ends(lines: Seq<Seq<char>>)
    ensures
        offset(lines, 0) == 0,
        offset(lines, lines.len() as int) == lines_text(lines).len(),
{
    assert(lines.take(0) =~= Seq::<Seq<char>>::empty());
    assert(lines.take(lines.len() as int) =~= lines);
}

/// The line that place `p` is in.
proof fn lemma_where(lines: Seq<Seq<char>>, p: int) -> (k: int)
    requires
        0 <= p < lines_text(lines).len(),
    ensures
        0 <= k < lines.len(),
        offset(lines, k) <= p <= offset(lines, k) + lines[k].len(),
    decreases lines.len(),
{
    let short = lines.drop_last();
    let last = lines.len() - 1;
    assert(lines.take(last) =~= short);
    if p < lines_text(short).len() {
        let k = lemma_where(short, p);
        assert(short.take(k) =~= lines.take(k));
        k
    } else {
        last
    }
}

/// A place in line `k` is indented exactly when the line has nothing but blanks before it.
proof fn lemma_indented(lines: Seq<Seq<char>>, k: int, p: int)
    requires
        0 <= k < lines.len(),
        one_line(lines[k]),
        offset(lines, k) <= p <= offset(lines, k) + lines[k].len(),
    ensures
        indented(lines_text(lines), p) <==> forall|i: int|
            0 <= i < p - offset(lines, k) ==> is_blank(#[trigger] lines[k][i]),
        line_start(lines_text(lines), p) <==> p == offset(lines, k),
    decreases p - offset(lines, k),
{
    let t = lines_text(lines);
    let o = offset(lines, k);
    lemma_line(lines, k);
    if p == o {
        if k > 0 {
            lemma_line(lines, k - 1);
        } else {
            lemma_ends(lines);
        }
    } else {
        lemma_indented(lines, k, p - 1);
        assert(t[p - 1] == lines[k][p - 1 - o]);
        if indented(t, p) {
            assert forall|i: int| 0 <= i < p - o implies is_blank(#[trigger] lines[k][i]) by {
                if i < p - 1 - o {
                    assert(indented(t, p - 1));
                }
            }
        } else if forall|i: int| 0 <= i < p - o ==> is_blank(#[trigger] lines[k][i]) {
            assert(is_blank(lines[k][p - 1 - o]));
        }
    }
}

/// The first thing in a line, if there is one, is not `c`.
spec fn starts_otherwise(l: Seq<char>, c: char) -> bool {
    one_line(l) && forall|i: int|
        0 <= i < l.len() && (forall|j: int| 0 <= j < i ==> is_blank(#[trigger] l[j]))
            && #[trigger] l[i] == c ==> false
}

/// The line is not one that an entry starts with.
spec fn quiet(l: Seq<char>) -> bool {
    starts_otherwise(l, 'i')
}

/// No entry starts in a quiet line.
proof fn lemma_quiet(lines: Seq<Seq<char>>, k: int, p: int, n: nat)
    requires
        0 <= k < lines.len(),
        quiet(lines[k]),
        offset(lines, k) <= p <= offset(lines, k) + lines[k].len(),
    ensures
        !(header(lines_text(lines), p) is Some && indented(lines_text(lines), p)),
        entry_start(lines_text(lines), p, n) is None,
{
    let t = lines_text(lines);
    let o = offset(lines, k);
    lemma_line(lines, k);
    lemma_indented(lines, k, p);
    reveal_strlit("id");
    if word_at(t, p, "id"@) {
        assert(t.subrange(p, p + 2)[0] == "id"@[0]);
        assert(t[p] == 'i');
        if p < o + lines[k].len() {
            assert(t[p] == lines[k][p - o]);
        }
        if line_start(t, p) {
            assert(indented(t, p));
        }
    }
}

/// The first line of the entry with the id `n`.
spec fn header_line(n: nat) -> Seq<char> {
    seq!['i', 'd', ' '] + decimal(n) + seq![':']
}

/// Digits end where they do.
proof fn lemma_digits_end_at(t: Seq<char>, from: int, to: int)
    requires
        0 <= from <= to < t.len(),
        forall|i: int| from <= i < to ==> is_digit(#[trigger] t[i]),
        t[to] == ':',
    ensures
        any_digits_end(t, from) == to,
    decreases to - from,
{
    if from < to {
        assert(is_digit(t[from]));
        lemma_digits_end_at(t, from + 1, to);
    }
}

/// What is found in the first line of an entry.
proof fn lemma_header(lines: Seq<Seq<char>>, k: int, n: nat)
    requires
        0 <= k < lines.len(),
        lines[k] == header_line(n),
    ensures
        ({
            let t = lines_text(lines);
            let o = offset(lines, k);
            let to = o + 3 + decimal(n).len();
            &&& one_line(lines[k])
            &&& header(t, o) == Some((o + 3, to))
            &&& t.subrange(o + 3, to) == decimal(n)
            &&& skip_blanks(t, o + 2) == o + 3
            &&& line_start(t, o)
            &&& indented(t, o)
            &&& word_at(t, o, "id"@)
            &&& at(t, to, ':')
            &&& line_blank(t, to + 1)
            &&& t[to + 1] == '\n'
            &&& offset(lines, k + 1) == to + 2
            &&& forall|p: int| o < p < to + 2 ==> !#[trigger] indented(t, p)
        }),
{
    let t = lines_text(lines);
    let o = offset(lines, k);
    let l = lines[k];
    let d = decimal(n);
    let to = o + 3 + d.len();
    lemma_line(lines, k);
    lemma_decimal_value(n);
    assert(l.len() == d.len() + 4);
    assert forall|i: int| 0 <= i < d.len() implies #[trigger] l[3 + i] == d[i] by {}
    assert forall|i: int| 0 <= i < l.len() implies #[trigger] l[i] != '\n' by {
        if 3 <= i < 3 + d.len() {
            assert(is_digit(d[i - 3]));
        }
    }
    assert(t[o] == l[0] && t[o + 1] == l[1] && t[o + 2] == l[2]);
    assert(t[o + 3] == l[3] && l[3] == d[0] && is_digit(d[0]));
    reveal_strlit("id");
    assert(t.subrange(o, o + 2) =~= "id"@);
    assert(skip_blanks(t, o + 3) == o + 3);
    assert(t[to] == l[l.len() - 1]);
    assert forall|i: int| o + 3 <= i < to implies is_digit(#[trigger] t[i]) by {
        assert(t[i] == l[i - o]);
        assert(is_digit(d[i - o - 3]));
    }
    lemma_digits_end_at(t, o + 3, to);
    assert(t.subrange(o + 3, to) =~= d) by {
        assert forall|i: int| 0 <= i < d.len() implies t.subrange(o + 3, to)[i] == d[i] by {
            assert(t[o + 3 + i] == l[3 + i]);
        }
    }
    lemma_indented(lines, k, o);
    assert forall|p: int| o < p < to + 2 implies !#[trigger] indented(t, p) by {
        lemma_indented(lines, k, p);
        assert(!is_blank(l[0]));
    }
}

/// Two ids with the same digits in front of a colon are the same.
proof fn lemma_same_id(lines: Seq<Seq<char>>, k: int, m: nat, n: nat)
    requires
        0 <= k < lines.len(),
        lines[k] == header_line(m),
        entry_start(lines_text(lines), offset(lines, k), n) is Some,
    ensures
        m == n,
{
    let t = lines_text(lines);
    let o = offset(lines, k);
    lemma_header(lines, k, m);
    lemma_decimal_value(m);
    lemma_decimal_value(n);
    let (c, d) = (decimal(m), decimal(n));
    assert(t.subrange(o + 3, o + 3 + d.len()) == d);
    assert forall|i: int| 0 <= i < d.len() implies t[o + 3 + i] == d[i] by {
        assert(t.subrange(o + 3, o + 3 + d.len())[i] == d[i]);
    }
    assert forall|i: int| 0 <= i < c.len() implies t[o + 3 + i] == c[i] by {
        assert(t.subrange(o + 3, o + 3 + c.len())[i] == c[i]);
    }
    if c.len() < d.len() {
        assert(t[o + 3 + c.len()] == ':');
        assert(is_digit(d[c.len() as int]));
    } else if d.len() < c.len() {
        assert(t[o + 3 + d.len()] == ':');
        assert(is_digit(c[d.len() as int]));
    }
    assert(c =~= d);
}

/// Line `i` of the heading of a catalog.
spec fn heading_line(i: int) -> Seq<char> {
    if i == 0 || i == 2 {
        "========================================================="@
    } else if i == 1 {
        "          SYMBOLIC CONSTANT SUBTREES CATALOG             "@
    } else {
        Seq::empty()
    }
}

/// Line `i` of an entry.
spec fn entry_line(e: CatalogEntry, i: int) -> Seq<char> {
    if i == 0 {
        header_line(e.id as nat)
    } else if i == 1 {
        "  Symbolic Value  : "@ + clean_text(e.symbolic)
    } else if i == 2 {
        "  Numerical Value : "@ + number_text(e.numeric)
    } else if i == 3 {
        "  EML Subtree     : "@ + e.eml@
    } else {
        Seq::empty()
    }
}

/// Line `i` of a catalog.
spec fn line_at(entries: Seq<CatalogEntry>, i: int) -> Seq<char> {
    if i < 4 {
        heading_line(i)
    } else {
        entry_line(entries[(i - 4) / 5], (i - 4) % 5)
    }
}

/// The lines of a catalog.
spec fn catalog_lines(entries: Seq<CatalogEntry>) -> Seq<Seq<char>> {
    Seq::new(4 + 5 * entries.len(), |i: int| line_at(entries, i))
}

/// Line `i` of entry `k`, among the lines of a catalog.
proof fn lemma_catalog_line(entries: Seq<CatalogEntry>, k: int, i: int)
    requires
        0 <= k < entries.len(),
        0 <= i < 5,
    ensures
        4 + 5 * k + i < catalog_lines(entries).len(),
        catalog_lines(entries)[4 + 5 * k + i] == entry_line(entries[k], i),
{
    let at = 4 + 5 * k + i;
    assert((at - 4) / 5 == k && (at - 4) % 5 == i);
    assert(catalog_lines(entries)[at] == line_at(entries, at));
}

/// The last line is at the end.
proof fn lemma_push_line(lines: Seq<Seq<char>>, l: Seq<char>)
    ensures
        lines_text(lines.push(l)) == lines_text(lines) + l + seq!['\n'],
{
    assert(lines.push(l).drop_last() =~= lines);
}

/// The text of a catalog is made of its lines.
proof fn lemma_catalog_lines(entries: Seq<CatalogEntry>)
    ensures
        lines_text(catalog_lines(entries)) == catalog_text(entries),
    decreases entries.len(),
{
    reveal_strlit("\n");
    assert("\n"@ =~= seq!['\n']);
    if entries.len() == 0 {
        let none = Seq::<Seq<char>>::empty();
        let one = none.push(heading_line(0));
        let two = one.push(heading_line(1));
        let three = two.push(heading_line(2));
        let four = three.push(heading_line(3));
        lemma_push_line(none, heading_line(0));
        lemma_push_line(one, heading_line(1));
        lemma_push_line(two, heading_line(2));
        lemma_push_line(three, heading_line(3));
        assert(catalog_lines(entries) =~= four);
        assert(lines_text(four) =~= heading());
    } else {
        let short = entries.drop_last();
        let e = entries.last();
        lemma_catalog_lines(short);
        let zero = catalog_lines(short);
        let one = zero.push(entry_line(e, 0));
        let two = one.push(entry_line(e, 1));
        let three = two.push(entry_line(e, 2));
        let four = three.push(entry_line(e, 3));
        let five = four.push(entry_line(e, 4));
        lemma_push_line(zero, entry_line(e, 0));
        lemma_push_line(one, entry_line(e, 1));
        lemma_push_line(two, entry_line(e, 2));
        lemma_push_line(three, entry_line(e, 3));
        lemma_push_line(four, entry_line(e, 4));
        assert(catalog_lines(entries) =~= five) by {
            assert forall|i: int| 0 <= i < five.len() implies #[trigger] catalog_lines(entries)[i]
                == five[i] by {
                if i < zero.len() {
                    assert(five[i] == zero[i]);
                    if i >= 4 {
                        assert((i - 4) / 5 < short.len());
                        assert(entries[(i - 4) / 5] == short[(i - 4) / 5]);
                    }
                } else {
                    assert((i - 4) / 5 == short.len());
                    assert(entries[short.len() as int] == e);
                }
            }
        }
        reveal_strlit("id ");
        reveal_strlit(":");
        assert(header_line(e.id as nat) =~= "id "@ + decimal(e.id as nat) + ":"@);
        assert(lines_text(five) =~= catalog_text(short) + entry_text(e));
    }
}

/// The label of a line is the first thing in it.
proof fn lemma_label_first(l: Seq<char>, c: char, other: char)
    requires
        one_line(l),
        l.len() > 2,
        l[0] == ' ',
        l[1] == ' ',
        l[2] == c,
        !is_blank(c),
        other != c,
        other != ' ',
    ensures
        starts_otherwise(l, other),
{
    assert forall|i: int|
        0 <= i < l.len() && (forall|j: int| 0 <= j < i ==> is_blank(#[trigger] l[j]))
            && #[trigger] l[i] == other implies false by {
        if i > 2 {
            assert(is_blank(l[2]));
        }
    }
}

/// What the lines of an entry start with.
proof fn lemma_entry_line(e: CatalogEntry, i: int)
    requires
        entry_plain(e),
        1 <= i < 5,
    ensures
        quiet(entry_line(e, i)),
        i != 1 ==> starts_otherwise(entry_line(e, i), 'S'),
        i != 3 ==> starts_otherwise(entry_line(e, i), 'E'),
{
    let l = entry_line(e, i);
    if i == 1 {
        reveal_strlit("  Symbolic Value  : ");
        assert(one_line("  Symbolic Value  : "@));
        lemma_label_first(l, 'S', 'i');
        lemma_label_first(l, 'S', 'E');
    } else if i == 2 {
        reveal_strlit("  Numerical Value : ");
        assert(one_line("  Numerical Value : "@));
        lemma_label_first(l, 'N', 'i');
        lemma_label_first(l, 'N', 'S');
        lemma_label_first(l, 'N', 'E');
    } else if i == 3 {
        reveal_strlit("  EML Subtree     : ");
        assert(one_line("  EML Subtree     : "@));
        lemma_label_first(l, 'E', 'i');
        lemma_label_first(l, 'E', 'S');
    }
}

/// The heading is quiet.
proof fn lemma_heading_line(i: int)
    requires
        0 <= i < 4,
    ensures
        quiet(heading_line(i)),
{
    let l = heading_line(i);
    if i == 0 || i == 2 {
        reveal_strlit("=========================================================");
        assert(!is_blank(l[0]));
        assert forall|k: int|
            0 <= k < l.len() && (forall|j: int| 0 <= j < k ==> is_blank(#[trigger] l[j]))
                && #[trigger] l[k] == 'i' implies false by {
            if k > 0 {
                assert(is_blank(l[0]));
            }
        }
    } else if i == 1 {
        reveal_strlit("          SYMBOLIC CONSTANT SUBTREES CATALOG             ");
        assert(!is_blank(l[10]));
        assert forall|k: int|
            0 <= k < l.len() && (forall|j: int| 0 <= j < k ==> is_blank(#[trigger] l[j]))
                && #[trigger] l[k] == 'i' implies false by {
            if k > 10 {
                assert(is_blank(l[10]));
            }
        }
    }
}

/// The entry `n` does not start in this line.
spec fn passes(l: Seq<char>, n: nat) -> bool {
    quiet(l) || exists|m: nat| m != n && l == #[trigger] header_line(m)
}

/// The search for an entry goes past a line.
proof fn lemma_pass_line(lines: Seq<Seq<char>>, k: int, p: int, n: nat)
    requires
        0 <= k < lines.len(),
        passes(lines[k], n),
        offset(lines, k) <= p <= offset(lines, k + 1),
    ensures
        find_entry(lines_text(lines), p, n) == find_entry(
            lines_text(lines),
            offset(lines, k + 1),
            n,
        ),
    decreases offset(lines, k + 1) - p,
{
    let t = lines_text(lines);
    let o = offset(lines, k);
    lemma_line(lines, k);
    if p < offset(lines, k + 1) {
        if quiet(lines[k]) {
            lemma_quiet(lines, k, p, n);
        } else {
            let m = choose|m: nat| m != n && lines[k] == #[trigger] header_line(m);
            lemma_header(lines, k, m);
            lemma_indented(lines, k, p);
            if p == o && entry_start(t, p, n) is Some {
                lemma_same_id(lines, k, m, n);
            }
        }
        lemma_pass_line(lines, k, p + 1, n);
    }
}

/// The search for an entry goes past lines in which it does not start.
proof fn lemma_pass(lines: Seq<Seq<char>>, k: int, n: nat)
    requires
        0 <= k <= lines.len(),
        forall|i: int| 0 <= i < k ==> passes(#[trigger] lines[i], n),
    ensures
        find_entry(lines_text(lines), 0, n) == find_entry(lines_text(lines), offset(lines, k), n),
    decreases k,
{
    lemma_ends(lines);
    if k > 0 {
        lemma_pass(lines, k - 1, n);
        lemma_line(lines, k - 1);
        assert(passes(lines[k - 1], n));
        lemma_pass_line(lines, k - 1, offset(lines, k - 1), n);
    }
}

/// Which lines of a catalog an entry does not start in.
proof fn lemma_catalog_passes(entries: Seq<CatalogEntry>, i: int, n: nat)
    requires
        0 <= i < catalog_lines(entries).len(),
        forall|j: int| 0 <= j < entries.len() ==> entry_plain(#[trigger] entries[j]),
        i >= 4 && (i - 4) % 5 == 0 ==> entries[(i - 4) / 5].id != n,
    ensures
        passes(catalog_lines(entries)[i], n),
{
    if i < 4 {
        lemma_heading_line(i);
    } else {
        let e = entries[(i - 4) / 5];
        assert(0 <= (i - 4) / 5 < entries.len());
        if (i - 4) % 5 > 0 {
            lemma_entry_line(e, (i - 4) % 5);
        } else {
            assert(catalog_lines(entries)[i] == header_line(e.id as nat));
        }
    }
}

/// What follows line `k` starts with the line break behind it.
proof fn lemma_rest(lines: Seq<Seq<char>>, k: int)
    requires
        0 <= k < lines.len(),
    ensures
        lines_text(lines).skip(offset(lines, k) + lines[k].len()) == lines_text(
            seq![Seq::<char>::empty()] + lines.skip(k + 1),
        ),
    decreases lines.len(),
{
    let t = lines_text(lines);
    let at = offset(lines, k) + lines[k].len();
    let short = lines.drop_last();
    let rest = seq![Seq::<char>::empty()] + lines.skip(k + 1);
    lemma_line(lines, k);
    if k == lines.len() - 1 {
        lemma_ends(lines);
        assert(rest.len() == 1 && rest.last() == Seq::<char>::empty());
        assert(lines_text(rest.drop_last()) == Seq::<char>::empty());
        assert(lines_text(rest) =~= seq!['\n']);
        assert(t.len() == at + 1);
        assert(t.skip(at) =~= seq!['\n']);
    } else {
        lemma_rest(short, k);
        lemma_line(short, k);
        assert(short.take(k) =~= lines.take(k));
        assert(rest.drop_last() =~= seq![Seq::<char>::empty()] + short.skip(k + 1));
        assert(rest.last() == lines.last());
        assert(t.skip(at) =~= lines_text(short).skip(at) + lines.last() + seq!['\n']);
    }
}

/// The text up to line `k` is that of the lines before it.
proof fn lemma_front(lines: Seq<Seq<char>>, k: int)
    requires
        0 <= k <= lines.len(),
    ensures
        offset(lines, k) <= lines_text(lines).len(),
        lines_text(lines).take(offset(lines, k)) == lines_text(lines.take(k)),
    decreases lines.len(),
{
    let t = lines_text(lines);
    if k == lines.len() {
        assert(lines.take(k) =~= lines);
        assert(t.take(t.len() as int) =~= t);
    } else {
        let short = lines.drop_last();
        lemma_front(short, k);
        assert(short.take(k) =~= lines.take(k));
        assert(t.take(offset(lines, k)) =~= lines_text(short).take(offset(lines, k)));
    }
}

/// Blanks end where they do.
proof fn lemma_blanks_end_at(t: Seq<char>, from: int, to: int)
    requires
        0 <= from <= to < t.len(),
        forall|i: int| from <= i < to ==> is_blank(#[trigger] t[i]),
        !is_blank(t[to]),
    ensures
        skip_blanks(t, from) == to,
    decreases to - from,
{
    if from < to {
        assert(is_blank(t[from]));
        lemma_blanks_end_at(t, from + 1, to);
    }
}

/// A line ends where it does.
proof fn lemma_line_end_at(t: Seq<char>, from: int, to: int)
    requires
        0 <= from <= to < t.len(),
        forall|i: int| from <= i < to ==> #[trigger] t[i] != '\n',
        t[to] == '\n',
    ensures
        line_end(t, from) == to,
    decreases to - from,
{
    if from < to {
        lemma_line_end_at(t, from + 1, to);
    }
}

/// No entry ends in a quiet line.
proof fn lemma_no_end(lines: Seq<Seq<char>>, k: int, p: int)
    requires
        0 <= k < lines.len(),
        quiet(lines[k]),
        offset(lines, k) <= p <= offset(lines, k + 1),
    ensures
        entry_end(lines_text(lines), p) == entry_end(lines_text(lines), offset(lines, k + 1)),
    decreases offset(lines, k + 1) - p,
{
    lemma_line(lines, k);
    if p < offset(lines, k + 1) {
        lemma_quiet(lines, k, p, 0);
        lemma_no_end(lines, k, p + 1);
    }
}

/// A value is not looked for in a line that starts otherwise than its label.
proof fn lemma_no_field(lines: Seq<Seq<char>>, k: int, p: int, label: Seq<char>)
    requires
        0 <= k < lines.len(),
        label.len() > 0,
        label[0] != '\n',
        starts_otherwise(lines[k], label[0]),
        offset(lines, k) <= p <= offset(lines, k + 1),
    ensures
        find_field(lines_text(lines), p, label) == find_field(
            lines_text(lines),
            offset(lines, k + 1),
            label,
        ),
    decreases offset(lines, k + 1) - p,
{
    let t = lines_text(lines);
    let o = offset(lines, k);
    lemma_line(lines, k);
    if p < offset(lines, k + 1) {
        lemma_indented(lines, k, p);
        if field_at(t, p, label) is Some {
            assert(t.subrange(p, p + label.len())[0] == label[0]);
            assert(t[p] == label[0]);
            assert(lines[k][p - o] == label[0]);
        }
        lemma_no_field(lines, k, p + 1, label);
    }
}

/// A line without blanks at its ends is not trimmed.
proof fn lemma_trimmed(v: Seq<char>)
    requires
        plain_line(v),
    ensures
        trim(v) == v,
{
    assert(skip_blanks(v, 0) == 0);
    assert(blanks_start(v, v.len() as int) == v.len());
    assert(v.subrange(0, v.len() as int) =~= v);
}

/// The value in a line is read.
proof fn lemma_field(
    lines: Seq<Seq<char>>,
    k: int,
    label: Seq<char>,
    gap: Seq<char>,
    v: Seq<char>,
)
    requires
        0 <= k < lines.len(),
        lines[k] == seq![' ', ' '] + label + gap + seq![':', ' '] + v,
        one_line(lines[k]),
        label.len() > 0,
        !is_blank(label[0]),
        forall|i: int| 0 <= i < gap.len() ==> is_blank(#[trigger] gap[i]),
        plain_line(v),
    ensures
        find_field(lines_text(lines), offset(lines, k), label) == Some(v),
{
    let t = lines_text(lines);
    let l = lines[k];
    let o = offset(lines, k);
    let p = o + 2;
    lemma_line(lines, k);
    assert(is_blank(l[0]) && is_blank(l[1]));
    lemma_indented(lines, k, p);
    assert(indented(t, p));
    assert(t.subrange(p, p + label.len()) =~= label) by {
        assert forall|i: int| 0 <= i < label.len() implies t.subrange(p, p + label.len())[i]
            == label[i] by {
            assert(t[p + i] == l[2 + i]);
        }
    }
    let colon = p + label.len() + gap.len();
    assert(t[colon] == l[colon - o] && l[colon - o] == ':');
    assert forall|i: int| p + label.len() <= i < colon implies is_blank(#[trigger] t[i]) by {
        assert(t[i] == l[i - o]);
        assert(is_blank(gap[i - p - label.len()]));
    }
    lemma_blanks_end_at(t, p + label.len(), colon);
    let value = colon + 2;
    assert(t[colon + 1] == l[colon + 1 - o] && l[colon + 1 - o] == ' ');
    assert(t[value] == l[value - o] && l[value - o] == v[0]);
    assert forall|i: int| colon + 1 <= i < value implies is_blank(#[trigger] t[i]) by {}
    lemma_blanks_end_at(t, colon + 1, value);
    let end = o + l.len();
    assert(end == value + v.len());
    assert forall|i: int| value <= i < end implies #[trigger] t[i] != '\n' by {
        assert(t[i] == l[i - o]);
    }
    lemma_line_end_at(t, value, end);
    assert(t.subrange(value, end) =~= v) by {
        assert forall|i: int| 0 <= i < v.len() implies t.subrange(value, end)[i] == v[i] by {
            assert(t[value + i] == l[value - o + i]);
        }
    }
    lemma_trimmed(v);
    assert(field_at(t, p, label) == Some(v));
    assert(t[o] == l[0] && t[o + 1] == l[1]);
    if field_at(t, o, label) is Some {
        assert(t.subrange(o, o + label.len())[0] == label[0]);
    }
    if field_at(t, o + 1, label) is Some {
        assert(t.subrange(o + 1, o + 1 + label.len())[0] == label[0]);
    }
    assert(find_field(t, p, label) == Some(v));
    assert(find_field(t, o + 1, label) == Some(v));
}

/// The lines of an entry, without the first, as they stand behind it: `block` starts with the line
/// break that ends the first line.
spec fn entry_block(block: Seq<Seq<char>>, e: CatalogEntry) -> bool {
    block.len() >= 4 && block[0] == Seq::<char>::empty() && forall|i: int|
        1 <= i < 4 ==> #[trigger] block[i] == entry_line(e, i)
}

/// How the line with the symbolic value is made.
proof fn lemma_symbolic_line(v: Seq<char>)
    ensures
        "  Symbolic Value  : "@ + v == seq![' ', ' '] + "Symbolic Value"@ + seq![' ', ' ']
            + seq![':', ' '] + v,
        "Symbolic Value"@.len() > 0,
        "Symbolic Value"@[0] == 'S',
{
    reveal_strlit("Symbolic Value");
    reveal_strlit("  Symbolic Value  : ");
    assert("  Symbolic Value  : "@ =~= seq![' ', ' '] + "Symbolic Value"@ + seq![' ', ' '] + seq![
        ':',
        ' ',
    ]);
}

/// How the line with the subexpression is made.
proof fn lemma_subtree_line(v: Seq<char>)
    ensures
        "  EML Subtree     : "@ + v == seq![' ', ' '] + "EML Subtree"@ + seq![
            ' ',
            ' ',
            ' ',
            ' ',
            ' ',
        ] + seq![':', ' '] + v,
        "EML Subtree"@.len() > 0,
        "EML Subtree"@[0] == 'E',
{
    reveal_strlit("EML Subtree");
    reveal_strlit("  EML Subtree     : ");
    assert("  EML Subtree     : "@ =~= seq![' ', ' '] + "EML Subtree"@ + seq![
        ' ',
        ' ',
        ' ',
        ' ',
        ' ',
    ] + seq![':', ' ']);
}

/// The symbolic value in the lines of an entry is read.
proof fn lemma_symbolic_field(block: Seq<Seq<char>>, e: CatalogEntry)
    requires
        entry_plain(e),
        entry_block(block, e),
    ensures
        field(lines_text(block), "Symbolic Value"@) == Some(clean_text(e.symbolic)),
{
    let v = clean_text(e.symbolic);
    lemma_symbolic_line(v);
    lemma_ends(block);
    lemma_entry_line(e, 1);
    lemma_line(block, 0);
    assert(block[1] == entry_line(e, 1));
    lemma_no_field(block, 0, 0, "Symbolic Value"@);
    lemma_field(block, 1, "Symbolic Value"@, seq![' ', ' '], v);
}

/// The subexpression in the lines of an entry is read.
proof fn lemma_subtree_field(block: Seq<Seq<char>>, e: CatalogEntry)
    requires
        entry_plain(e),
        entry_block(block, e),
    ensures
        field(lines_text(block), "EML Subtree"@) == Some(e.eml@),
{
    lemma_subtree_line(e.eml@);
    lemma_ends(block);
    lemma_entry_line(e, 1);
    lemma_entry_line(e, 2);
    lemma_entry_line(e, 3);
    lemma_line(block, 0);
    lemma_line(block, 1);
    lemma_line(block, 2);
    assert(block[1] == entry_line(e, 1));
    assert(block[2] == entry_line(e, 2));
    assert(block[3] == entry_line(e, 3));
    lemma_no_field(block, 0, 0, "EML Subtree"@);
    lemma_no_field(block, 1, offset(block, 1), "EML Subtree"@);
    lemma_no_field(block, 2, offset(block, 2), "EML Subtree"@);
    lemma_field(block, 3, "EML Subtree"@, seq![' ', ' ', ' ', ' ', ' '], e.eml@);
}

/// Where the lines of an entry start.
proof fn lemma_entry_start(entries: Seq<CatalogEntry>, k: int)
    requires
        0 <= k < entries.len(),
    ensures
        ({
            let lines = catalog_lines(entries);
            let h = 4 + 5 * k;
            entry_start(lines_text(lines), offset(lines, h), entries[k].id as nat) == Some(
                offset(lines, h) + lines[h].len(),
            )
        }),
{
    let lines = catalog_lines(entries);
    let t = lines_text(lines);
    let h = 4 + 5 * k;
    let n = entries[k].id as nat;
    let o = offset(lines, h);
    lemma_catalog_line(entries, k, 0);
    lemma_catalog_line(entries, k, 1);
    lemma_header(lines, h, n);
    lemma_line(lines, h);
    lemma_line(lines, h + 1);
    let next = offset(lines, h + 1);
    let l = lines[h + 1];
    reveal_strlit("  Symbolic Value  : ");
    assert(l == entry_line(entries[k], 1));
    assert(l[0] == ' ' && l[1] == ' ' && l[2] == 'S');
    assert(t[next] == l[0] && t[next + 1] == l[1] && t[next + 2] == l[2]);
    assert forall|i: int| next - 1 <= i < next + 2 implies is_blank(#[trigger] t[i]) by {}
    lemma_blanks_end_at(t, next - 1, next + 2);
    assert(last_break(t, next - 1, next) == next - 1);
    assert(last_break(t, next - 1, next + 1) == next - 1);
    assert(last_break(t, next - 1, next + 2) == next - 1);
}

/// No entry ends in quiet lines.
proof fn lemma_no_ends(lines: Seq<Seq<char>>, k: int)
    requires
        0 <= k <= lines.len(),
        forall|i: int| 0 <= i < k ==> quiet(#[trigger] lines[i]),
    ensures
        entry_end(lines_text(lines), 0) == entry_end(lines_text(lines), offset(lines, k)),
    decreases k,
{
    lemma_ends(lines);
    if k > 0 {
        lemma_no_ends(lines, k - 1);
        lemma_line(lines, k - 1);
        assert(quiet(lines[k - 1]));
        lemma_no_end(lines, k - 1, offset(lines, k - 1));
    }
}

/// The margin of a line behind an empty line, when the line before that is not blank.
proof fn lemma_margin(lines: Seq<Seq<char>>, k: int, c: int)
    requires
        0 < k < lines.len(),
        one_line(lines[k - 1]),
        lines[k] == Seq::<char>::empty(),
        0 <= c < lines[k - 1].len(),
        !is_blank(lines[k - 1][c]),
    ensures
        margin(lines_text(lines), offset(lines, k + 1)) == offset(lines, k),
{
    let t = lines_text(lines);
    let o = offset(lines, k);
    lemma_line(lines, k - 1);
    lemma_line(lines, k);
    lemma_indented(lines, k, o);
    lemma_indented(lines, k - 1, o - 1);
    assert(!indented(t, o - 1));
    assert(margin(t, o) == o);
}

/// The lines of an entry end before the first line of the next.
proof fn lemma_entry_lines(rest: Seq<Seq<char>>, e: CatalogEntry) -> (block: Seq<Seq<char>>)
    requires
        entry_plain(e),
        entry_block(rest, e),
        rest.len() >= 5,
        rest[4] == Seq::<char>::empty(),
        rest.len() > 5 ==> exists|m: nat| rest[5] == #[trigger] header_line(m),
    ensures
        entry_block(block, e),
        lines_text(rest).take(entry_end(lines_text(rest), 0)) == lines_text(block),
{
    let r = lines_text(rest);
    assert forall|i: int| 0 <= i < 5 implies quiet(#[trigger] rest[i]) by {
        if 1 <= i < 4 {
            lemma_entry_line(e, i);
        }
    }
    lemma_no_ends(rest, 5);
    if rest.len() == 5 {
        lemma_ends(rest);
        assert(r.take(r.len() as int) =~= r);
        rest
    } else {
        let m = choose|m: nat| rest[5] == #[trigger] header_line(m);
        lemma_header(rest, 5, m);
        lemma_line(rest, 5);
        assert(rest[3] == entry_line(e, 3));
        assert(rest[3].len() > 2 && !is_blank(rest[3][2])) by {
            reveal_strlit("  EML Subtree     : ");
        }
        lemma_margin(rest, 4, 2);
        lemma_front(rest, 4);
        rest.take(4)
    }
}

/// Reading the entry with the id of `e` gives the symbolic value and the subexpression of `e`.
pub open spec fn is_read(text: Seq<char>, e: CatalogEntry) -> bool {
    entry_lines(text, e.id as nat) matches Some(block) && field(block, "Symbolic Value"@) == Some(
        clean_text(e.symbolic),
    ) && field(block, "EML Subtree"@) == Some(e.eml@)
}

/// Reading an entry from the text of a catalog gives its symbolic value and its subexpression as
/// they were written, unless an earlier entry has the same id.
pub proof fn law_entry_is_read_back(entries: Seq<CatalogEntry>, k: int)
    requires
        0 <= k < entries.len(),
        forall|j: int| 0 <= j < entries.len() ==> entry_plain(#[trigger] entries[j]),
        forall|j: int| 0 <= j < k ==> (#[trigger] entries[j]).id != entries[k].id,
    ensures
        is_read(catalog_text(entries), entries[k]),
{
    let lines = catalog_lines(entries);
    let e = entries[k];
    let n = e.id as nat;
    let h = 4 + 5 * k;
    lemma_catalog_lines(entries);
    assert forall|i: int| 0 <= i < h implies passes(#[trigger] lines[i], n) by {
        if i >= 4 {
            assert((i - 4) / 5 < k);
        }
        lemma_catalog_passes(entries, i, n);
    }
    lemma_pass(lines, h, n);
    lemma_line(lines, h);
    lemma_entry_start(entries, k);
    let start = offset(lines, h) + lines[h].len();
    assert(find_entry(lines_text(lines), 0, n) == Some(start));
    let rest = seq![Seq::<char>::empty()] + lines.skip(h + 1);
    lemma_rest(lines, h);
    assert forall|i: int| 1 <= i < 5 implies #[trigger] rest[i] == entry_line(e, i) by {
        assert(rest[i] == lines[h + i]);
        lemma_catalog_line(entries, k, i);
    }
    assert(rest[4] == entry_line(e, 4));
    if rest.len() > 5 {
        assert(rest[5] == lines[h + 5]);
        lemma_catalog_line(entries, k + 1, 0);
        assert(rest[5] == header_line(entries[k + 1].id as nat));
    }
    let block = lemma_entry_lines(rest, e);
    lemma_symbolic_field(block, e);
    lemma_subtree_field(block, e);
}

/// An entry that was not written is not found.
pub proof fn law_absent_entry(entries: Seq<CatalogEntry>, n: nat)
    requires
        forall|j: int| 0 <= j < entries.len() ==> entry_plain(#[trigger] entries[j]),
        forall|j: int| 0 <= j < entries.len() ==> (#[trigger] entries[j]).id != n,
    ensures
        entry_lines(catalog_text(entries), n) is None,
{
    let lines = catalog_lines(entries);
    lemma_catalog_lines(entries);
    assert forall|i: int| 0 <= i < lines.len() implies passes(#[trigger] lines[i], n) by {
        if i >= 4 {
            assert(0 <= (i - 4) / 5 < entries.len());
        }
        lemma_catalog_passes(entries, i, n);
    }
    lemma_pass(lines, lines.len() as int, n);
    lemma_ends(lines);
}

/// No id stands in a quiet line.
proof fn lemma_no_id(lines: Seq<Seq<char>>, k: int, p: int)
    requires
        0 <= k < lines.len(),
        quiet(lines[k]) || (exists|m: nat| lines[k] == #[trigger] header_line(m)) && p > offset(
            lines,
            k,
        ),
        offset(lines, k) <= p <= offset(lines, k + 1),
    ensures
        ids_from(lines_text(lines), p) == ids_from(lines_text(lines), offset(lines, k + 1)),
    decreases offset(lines, k + 1) - p,
{
    lemma_line(lines, k);
    if p < offset(lines, k + 1) {
        if quiet(lines[k]) {
            lemma_quiet(lines, k, p, 0);
        } else {
            let m = choose|m: nat| lines[k] == #[trigger] header_line(m);
            lemma_header(lines, k, m);
            assert(!indented(lines_text(lines), p));
        }
        lemma_no_id(lines, k, p + 1);
    }
}

/// No id stands in the lines of an entry from line `i` on.
proof fn lemma_no_ids(entries: Seq<CatalogEntry>, k: int, i: int)
    requires
        0 <= k < entries.len(),
        1 <= i <= 5,
        entry_plain(entries[k]),
    ensures
        ids_from(
            lines_text(catalog_lines(entries)),
            offset(catalog_lines(entries), 4 + 5 * k + i),
        ) == ids_from(
            lines_text(catalog_lines(entries)),
            offset(catalog_lines(entries), 4 + 5 * (k + 1)),
        ),
    decreases 5 - i,
{
    let lines = catalog_lines(entries);
    let at = 4 + 5 * k + i;
    if i < 5 {
        lemma_catalog_line(entries, k, i);
        lemma_entry_line(entries[k], i);
        lemma_line(lines, at);
        lemma_no_id(lines, at, offset(lines, at));
        lemma_no_ids(entries, k, i + 1);
    }
}

/// `n` is the largest id from entry `k` on.
pub open spec fn largest(entries: Seq<CatalogEntry>, k: int, n: nat) -> bool {
    (forall|i: int| k <= i < entries.len() ==> (#[trigger] entries[i]).id <= n) && exists|i: int|
        k <= i < entries.len() && (#[trigger] entries[i]).id == n
}

/// The ids of the entries from `k` on are read.
proof fn lemma_ids(entries: Seq<CatalogEntry>, k: int) -> (r: Option<nat>)
    requires
        0 <= k <= entries.len(),
        forall|j: int| 0 <= j < entries.len() ==> entry_plain(#[trigger] entries[j]),
    ensures
        ids_from(
            lines_text(catalog_lines(entries)),
            offset(catalog_lines(entries), 4 + 5 * k),
        ) == Ok::<Option<nat>, Seq<char>>(r),
        match r {
            Some(n) => largest(entries, k, n),
            None => k == entries.len(),
        },
    decreases entries.len() - k,
{
    let lines = catalog_lines(entries);
    let t = lines_text(lines);
    let h = 4 + 5 * k;
    lemma_ends(lines);
    if k == entries.len() {
        None
    } else {
        let e = entries[k];
        let n = e.id as nat;
        let o = offset(lines, h);
        lemma_catalog_line(entries, k, 0);
        lemma_header(lines, h, n);
        lemma_decimal_value(n);
        lemma_line(lines, h);
        lemma_no_id(lines, h, o + 1);
        lemma_no_ids(entries, k, 1);
        let rest = lemma_ids(entries, k + 1);
        assert(ids_from(t, o + 1) == Ok::<Option<nat>, Seq<char>>(rest));
        match rest {
            Some(m) => {
                let at = choose|i: int| k + 1 <= i < entries.len() && (#[trigger] entries[i]).id == m;
                if m > n {
                    assert(entries[at].id == m);
                    Some(m)
                } else {
                    assert(entries[k].id == n);
                    Some(n)
                }
            },
            None => {
                assert(entries[k].id == n);
                Some(n)
            },
        }
    }
}

/// The largest id in the text of a catalog is the largest of its entries; there is none when there
/// are no entries.
pub proof fn law_largest_id_is_read_back(entries: Seq<CatalogEntry>)
    requires
        forall|j: int| 0 <= j < entries.len() ==> entry_plain(#[trigger] entries[j]),
    ensures
        match ids_from(catalog_text(entries), 0) {
            Ok(Some(n)) => largest(entries, 0, n),
            Ok(None) => entries.len() == 0,
            Err(_) => false,
        },
{
    let lines = catalog_lines(entries);
    lemma_catalog_lines(entries);
    lemma_ends(lines);
    lemma_heading_line(0);
    lemma_heading_line(1);
    lemma_heading_line(2);
    lemma_heading_line(3);
    lemma_line(lines, 0);
    lemma_line(lines, 1);
    lemma_line(lines, 2);
    lemma_line(lines, 3);
    lemma_no_id(lines, 0, 0);
    lemma_no_id(lines, 1, offset(lines, 1));
    lemma_no_id(lines, 2, offset(lines, 2));
    lemma_no_id(lines, 3, offset(lines, 3));
    let r = lemma_ids(entries, 0);
}

/// Each of the entries is read from the text, no others are found in it, and the largest id in it
/// is the largest of theirs.
pub open spec fn reads_back(text: Seq<char>, entries: Seq<CatalogEntry>) -> bool {
    &&& forall|i: int| 0 <= i < entries.len() ==> is_read(text, #[trigger] entries[i])
    &&& forall|n: nat|
        (forall|i: int| 0 <= i < entries.len() ==> (#[trigger] entries[i]).id != n)
            ==> #[trigger] entry_lines(text, n) is None
    &&& match ids_from(text, 0) {
        Ok(Some(n)) => largest(entries, 0, n),
        Ok(None) => entries.len() == 0,
        Err(_) => false,
    }
}

/// What is read from the text of a catalog whose entries have different ids is what was written.
pub proof fn law_catalog_is_read_back(entries: Seq<CatalogEntry>)
    requires
        forall|i: int| 0 <= i < entries.len() ==> entry_plain(#[trigger] entries[i]),
        forall|i: int, j: int|
            0 <= i < j < entries.len() ==> (#[trigger] entries[i]).id != (#[trigger] entries[j]).id,
    ensures
        reads_back(catalog_text(entries), entries),
{
    let text = catalog_text(entries);
    assert forall|i: int| 0 <= i < entries.len() implies is_read(text, #[trigger] entries[i]) by {
        law_entry_is_read_back(entries, i);
    }
    assert forall|n: nat|
        (forall|i: int| 0 <= i < entries.len() ==> (#[trigger] entries[i]).id != n) implies
            #[trigger] entry_lines(text, n) is None by {
        law_absent_entry(entries, n);
    }
    law_largest_id_is_read_back(entries);
}

} // verus!
