//! Expressions as text for people to read.

use num_complex::Complex64 as Pair;
use num_traits::FromBytes;
use vstd::prelude::*;

use crate::arena::{arena_ok, node_ok, Interner, Node, Op};
use crate::catalog::{eml_text, to_eml_string};
use crate::complex::Complex64;
use crate::float::{float_lt, negated, plain_text};
use crate::text::{decimal, push_u64};

verus! {

/// The text of a number without the sign of a negative one.
pub open spec fn unsigned_text(b: u64) -> Seq<char> {
    plain_text(
        if float_lt(b, 0) {
            negated(b)
        } else {
            b
        },
    )
}

/// The text of a complex number with the given parts, such as `1-2i`.
pub open spec fn complex_text(re: u64, im: u64) -> Seq<char> {
    (if float_lt(re, 0) {
        seq!['-']
    } else {
        Seq::empty()
    }) + unsigned_text(re) + seq![
        if float_lt(im, 0) {
            '-'
        } else {
            '+'
        },
    ] + unsigned_text(im) + seq!['i']
}

/// `Display` of `num_complex::Complex`: a minus sign when the real part is below zero, the number
/// text of its absolute value, the sign of the imaginary part in the same way, but with a plus sign
/// otherwise, the number text of its absolute value, and the letter `i`. A part that is not below
/// zero, such as a negative zero, is written as it is.
#[verifier::external_body]
pub(crate) fn format_complex(z: Complex64) -> (r: String)
    ensures
        r@ == complex_text(z.re, z.im),
{
    let p = Pair::new(FromBytes::from_le_bytes(&z.re.to_le_bytes()), FromBytes::from_le_bytes(&z.im.to_le_bytes()));
    format!("{}", p)
}

/// Two blanks for each level.
pub open spec fn indent(depth: int) -> Seq<char>
    decreases depth,
{
    if depth <= 0 {
        Seq::empty()
    } else {
        indent(depth - 1) + "  "@
    }
}

/// What a node is, without its children.
pub open spec fn node_text(n: Node) -> Seq<char> {
    match n.op {
        Op::Var => "x"@,
        Op::Const => "Const("@ + complex_text(n.const_val->0.re, n.const_val->0.im) + ")"@,
        Op::Prim => "eml"@,
    }
}

/// The line of a node.
pub open spec fn line_text(n: Node, id: int, depth: int) -> Seq<char> {
    indent(depth) + node_text(n) + " (id: "@ + decimal(id as nat) + ")\n"@
}

/// The nodes of an expression, one in each line, the parent before its children, which are
/// indented. A shared node is shown wherever it occurs.
pub open spec fn tree_text(nodes: Seq<Node>, id: int, depth: int) -> Seq<char>
    decreases id,
{
    let n = nodes[id];
    if n.op == Op::Prim && n.a < id && n.b < id {
        line_text(n, id, depth) + tree_text(nodes, n.a as int, depth + 1) + tree_text(
            nodes,
            n.b as int,
            depth + 1,
        )
    } else {
        line_text(n, id, depth)
    }
}

fn push_line(out: &mut String, n: Node, id: u32, depth: usize)
    requires
        n.op == Op::Const ==> n.const_val is Some,
    ensures
        final(out)@ == old(out)@ + line_text(n, id as int, depth as int),
{
    let mut level: usize = 0;
    assert(out@ =~= old(out)@ + indent(0));
    while level < depth
        invariant
            level <= depth,
            out@ == old(out)@ + indent(level as int),
        decreases depth - level,
    {
        out.push_str("  ");
        level += 1;
        assert(out@ =~= old(out)@ + indent(level as int));
    }
    let ghost so_far = out@;
    match n.op {
        Op::Var => {
            out.push_str("x");
        },
        Op::Const => {
            out.push_str("Const(");
            if let Some(v) = n.const_val {
                out.push_str(format_complex(v).as_str());
            }
            out.push_str(")");
        },
        Op::Prim => {
            out.push_str("eml");
        },
    }
    assert(out@ =~= so_far + node_text(n));
    out.push_str(" (id: ");
    push_u64(out, id as u64);
    out.push_str(")\n");
    assert(out@ =~= old(out)@ + line_text(n, id as int, depth as int));
}

fn push_tree(out: &mut String, interner: &Interner, node_id: u32, depth: usize)
    requires
        interner.wf(),
        node_id < interner.nodes().len(),
        depth + node_id < usize::MAX,
    ensures
        final(out)@ == old(out)@ + tree_text(interner.nodes(), node_id as int, depth as int),
    decreases node_id,
{
    proof {
        interner.lemma_wf();
        assert(node_ok(interner.nodes(), node_id as int));
    }
    let n = *interner.node(node_id);
    push_line(out, n, node_id, depth);
    if n.op == Op::Prim {
        push_tree(out, interner, n.a, depth + 1);
        push_tree(out, interner, n.b, depth + 1);
        assert(out@ =~= old(out)@ + tree_text(interner.nodes(), node_id as int, depth as int));
    }
}

/// The nodes of the expression rooted at `node_id`, one in each line, indented by their depth,
/// which starts at `depth`.
pub fn print_tree(interner: &Interner, node_id: u32, depth: usize) -> (r: String)
    requires
        interner.wf(),
        node_id < interner.nodes().len(),
        depth + node_id < usize::MAX,
    ensures
        r@ == tree_text(interner.nodes(), node_id as int, depth as int),
{
    let mut out = String::new();
    push_tree(&mut out, interner, node_id, depth);
    assert(out@ =~= tree_text(interner.nodes(), node_id as int, depth as int));
    out
}

/// The expression rooted at `node_id` in a single line.
pub fn to_expr_string(interner: &Interner, node_id: u32) -> (r: String)
    requires
        interner.wf(),
        node_id < interner.nodes().len(),
    ensures
        r@ == eml_text(interner.expr(node_id)),
{
    to_eml_string(interner, node_id)
}

/// The text of the file that shows an expression before and after it was minimized.
pub fn format_expressions(original: &str, minimized: &str) -> (r: String)
    ensures
        r@ == "ORIGINAL:\n"@ + original@ + "\n\nMINIMIZED:\n"@ + minimized@ + "\n"@,
{
    let mut out = String::new();
    out.push_str("ORIGINAL:\n");
    out.push_str(original);
    out.push_str("\n\nMINIMIZED:\n");
    out.push_str(minimized);
    out.push_str("\n");
    assert(out@ =~= "ORIGINAL:\n"@ + original@ + "\n\nMINIMIZED:\n"@ + minimized@ + "\n"@);
    out
}

/// `n` blanks.
pub open spec fn blanks(n: int) -> Seq<char> {
    Seq::new(n as nat, |i: int| ' ')
}

proof fn lemma_indent(depth: int)
    requires
        0 <= depth,
    ensures
        indent(depth) == blanks(2 * depth),
    decreases depth,
{
    reveal_strlit("  ");
    if depth > 0 {
        lemma_indent(depth - 1);
    }
    assert(indent(depth) =~= blanks(2 * depth));
}

/// Each node takes a line, with two blanks for each level above it, what it is, and its index. Under
/// a primitive stands first all of its first child and then all of its second, one level deeper.
pub proof fn law_tree_text(nodes: Seq<Node>, id: int, depth: int)
    requires
        arena_ok(nodes),
        0 <= id < nodes.len(),
        0 <= depth,
    ensures
        ({
            let n = nodes[id];
            let text = tree_text(nodes, id, depth);
            let index = seq![' ', '(', 'i', 'd', ':', ' '] + decimal(id as nat) + seq![')', '\n'];
            &&& n.op == Op::Var ==> text == blanks(2 * depth) + seq!['x'] + index
            &&& n.op == Op::Const ==> text == blanks(2 * depth) + seq!['C', 'o', 'n', 's', 't', '(']
                + complex_text(n.const_val->0.re, n.const_val->0.im) + seq![')'] + index
            &&& n.op == Op::Prim ==> text == blanks(2 * depth) + seq!['e', 'm', 'l'] + index
                + tree_text(nodes, n.a as int, depth + 1) + tree_text(
                nodes,
                n.b as int,
                depth + 1,
            )
        }),
{
    let n = nodes[id];
    let text = tree_text(nodes, id, depth);
    let index = seq![' ', '(', 'i', 'd', ':', ' '] + decimal(id as nat) + seq![')', '\n'];
    assert(node_ok(nodes, id));
    lemma_indent(depth);
    reveal_strlit("x");
    reveal_strlit("Const(");
    reveal_strlit(")");
    reveal_strlit("eml");
    reveal_strlit(" (id: ");
    reveal_strlit(")\n");
    assert(line_text(n, id, depth) =~= blanks(2 * depth) + node_text(n) + index);
    match n.op {
        Op::Var => {
            assert(text =~= blanks(2 * depth) + seq!['x'] + index);
        },
        Op::Const => {
            let value = complex_text(n.const_val->0.re, n.const_val->0.im);
            assert(text =~= blanks(2 * depth) + seq!['C', 'o', 'n', 's', 't', '('] + value + seq![')']
                + index);
        },
        Op::Prim => {
            assert(node_text(n) =~= seq!['e', 'm', 'l']);
        },
    }
}

} // verus!
