//! The catalog of the constant subexpressions of an expression: what each is, exactly and in
//! numbers.

use rustc_hash::FxHashMap;
use vstd::prelude::*;

use crate::arena::{arena_ok, node_ok, tree, Interner, Node, Op};
use crate::complex::{eml, prim_outcome, Complex64};
use crate::expr::{constant, Expr};
use crate::float::{
    check_integral, check_zero, fixed_text, float_lt, format_fixed, format_plain, get_magnitude,
    is_integral, is_zero, lt, magnitude, plain_text, to_i64, truncated,
};
use crate::fx::{fx_get, fx_insert, fx_new};
use crate::graph::{fresh, lemma_fresh_below, lemma_fresh_prim, lemma_reaches_below, parts, reaches};
use crate::readback::{law_catalog_is_read_back, reads_back};
use crate::symbolic::{clean_text, reduce_fixed_point, reduced, SymbolicExpr, MAX_PASSES};
use crate::text::{
    decimal, lemma_joined, lemma_signed_solid, lemma_solid, lemma_solid_joined, one_line,
    plain_line, push_i64, push_u64, signed_decimal, solid,
};

verus! {

/// Whether `id` is constant, where `known` already says so of some nodes.
pub open spec fn constant_under(nodes: Seq<Node>, known: Map<u32, bool>, id: u32) -> bool
    decreases id,
{
    if known.contains_key(id) {
        known[id]
    } else {
        match nodes[id as int].op {
            Op::Var => false,
            Op::Const => true,
            Op::Prim => nodes[id as int].a < id && nodes[id as int].b < id && constant_under(
                nodes,
                known,
                nodes[id as int].a,
            ) && constant_under(nodes, known, nodes[id as int].b),
        }
    }
}

/// `later` is `known` and what follows from it for the nodes that a walk from `id` meets.
pub open spec fn constants_noted(
    nodes: Seq<Node>,
    known: Map<u32, bool>,
    later: Map<u32, bool>,
    id: u32,
) -> bool {
    later.dom() == known.dom().union(fresh(nodes, known.dom(), id)) && constants_follow(
        nodes,
        known,
        later,
    )
}

/// What `later` says follows from `known`.
pub open spec fn constants_follow(
    nodes: Seq<Node>,
    known: Map<u32, bool>,
    later: Map<u32, bool>,
) -> bool {
    forall|k: u32| #[trigger]
        later.contains_key(k) ==> later[k] == constant_under(nodes, known, k)
}

/// What follows from what follows, follows.
proof fn lemma_constant_under_later(
    nodes: Seq<Node>,
    known: Map<u32, bool>,
    later: Map<u32, bool>,
    id: u32,
)
    requires
        known.dom().subset_of(later.dom()),
        constants_follow(nodes, known, later),
    ensures
        constant_under(nodes, later, id) == constant_under(nodes, known, id),
    decreases id,
{
    if !later.contains_key(id) {
        assert(!known.dom().contains(id));
        if nodes[id as int].op == Op::Prim && nodes[id as int].a < id && nodes[id as int].b < id {
            lemma_constant_under_later(nodes, known, later, nodes[id as int].a);
            lemma_constant_under_later(nodes, known, later, nodes[id as int].b);
        }
    }
}

/// With nothing known, or nothing but the truth, a node is found constant exactly when the
/// variable does not occur in its expression.
pub proof fn law_constant_without_variable(nodes: Seq<Node>, known: Map<u32, bool>, id: u32)
    requires
        arena_ok(nodes),
        id < nodes.len(),
        forall|k: u32| #[trigger] known.contains_key(k) ==> known[k] == constant(tree(nodes, k as int)),
    ensures
        constant_under(nodes, known, id) == constant(tree(nodes, id as int)),
    decreases id,
{
    if !known.contains_key(id) {
        assert(node_ok(nodes, id as int));
        if nodes[id as int].op == Op::Prim {
            law_constant_without_variable(nodes, known, nodes[id as int].a);
            law_constant_without_variable(nodes, known, nodes[id as int].b);
        }
    }
}

/// Whether the expression rooted at `node_id` is constant. What `memo` already says is taken as
/// it is, and what is found is noted there.
pub fn is_constant_node(interner: &Interner, node_id: u32, memo: &mut FxHashMap<u32, bool>) -> (r:
    bool)
    requires
        interner.wf(),
        node_id < interner.nodes().len(),
    ensures
        r == constant_under(interner.nodes(), old(memo)@, node_id),
        constants_noted(interner.nodes(), old(memo)@, final(memo)@, node_id),
    decreases node_id,
{
    let ghost nodes = interner.nodes();
    let ghost known = memo@;
    proof {
        interner.lemma_wf();
        assert(node_ok(nodes, node_id as int));
    }
    if let Some(res) = fx_get(memo, &node_id) {
        proof {
            assert(known.dom().contains(node_id));
            assert(known.dom() =~= known.dom().union(fresh(nodes, known.dom(), node_id)));
        }
        return *res;
    }
    let n = *interner.node(node_id);
    let res = match n.op {
        Op::Var => false,
        Op::Const => true,
        Op::Prim => {
            let left_const = is_constant_node(interner, n.a, memo);
            let ghost one = memo@;
            let right_const = is_constant_node(interner, n.b, memo);
            proof {
                lemma_constant_under_later(nodes, known, one, n.b);
                assert forall|k: u32| #[trigger] memo@.contains_key(k) implies memo@[k]
                    == constant_under(nodes, known, k) by {
                    lemma_constant_under_later(nodes, known, one, k);
                }
                assert(!known.dom().contains(node_id));
                lemma_fresh_prim(nodes, known.dom(), node_id);
            }
            left_const && right_const
        },
    };
    let ghost two = memo@;
    fx_insert(memo, node_id, res);
    proof {
        assert(memo@.dom() =~= two.dom().insert(node_id));
        if n.op != Op::Prim {
            assert(memo@.dom() =~= known.dom().union(fresh(nodes, known.dom(), node_id)));
        }
    }
    res
}

/// The symbol that a constant is read as.
pub open spec fn const_symbol(v: Complex64) -> SymbolicExpr {
    if is_zero(v.im) {
        if is_integral(v.re) {
            SymbolicExpr::Num(truncated(v.re) as i64)
        } else {
            SymbolicExpr::Float(v.re)
        }
    } else {
        SymbolicExpr::Complex(v)
    }
}

/// The symbol of `f(a, b)`, before it is simplified: `exp(a) - ln(b)`.
pub open spec fn prim_symbol(a: SymbolicExpr, b: SymbolicExpr) -> SymbolicExpr {
    SymbolicExpr::Sub(Box::new(SymbolicExpr::Exp(Box::new(a))), Box::new(SymbolicExpr::Ln(Box::new(b))))
}

/// The simplified symbol of node `id`, where `known` already gives that of some nodes. There is
/// none when the variable occurs or when a whole number leaves the range of `i64`.
pub open spec fn symbol_under(nodes: Seq<Node>, known: Map<u32, SymbolicExpr>, id: u32) -> Option<
    SymbolicExpr,
>
    decreases id,
{
    if known.contains_key(id) {
        Some(known[id])
    } else {
        match nodes[id as int].op {
            Op::Var => None,
            Op::Const => reduced(const_symbol(nodes[id as int].const_val->0), MAX_PASSES as nat),
            Op::Prim => if nodes[id as int].a < id && nodes[id as int].b < id {
                match (
                    symbol_under(nodes, known, nodes[id as int].a),
                    symbol_under(nodes, known, nodes[id as int].b),
                ) {
                    (Some(a), Some(b)) => reduced(prim_symbol(a, b), MAX_PASSES as nat),
                    _ => None,
                }
            } else {
                None
            },
        }
    }
}

/// What `later` says follows from `known`.
pub open spec fn symbols_follow(
    nodes: Seq<Node>,
    known: Map<u32, SymbolicExpr>,
    later: Map<u32, SymbolicExpr>,
) -> bool {
    forall|k: u32| #[trigger]
        later.contains_key(k) ==> symbol_under(nodes, known, k) == Some(later[k])
}

/// What follows from what follows, follows.
proof fn lemma_symbol_under_later(
    nodes: Seq<Node>,
    known: Map<u32, SymbolicExpr>,
    later: Map<u32, SymbolicExpr>,
    id: u32,
)
    requires
        known.dom().subset_of(later.dom()),
        symbols_follow(nodes, known, later),
    ensures
        symbol_under(nodes, later, id) == symbol_under(nodes, known, id),
    decreases id,
{
    if !later.contains_key(id) {
        assert(!known.dom().contains(id));
        if nodes[id as int].op == Op::Prim && nodes[id as int].a < id && nodes[id as int].b < id {
            lemma_symbol_under_later(nodes, known, later, nodes[id as int].a);
            lemma_symbol_under_later(nodes, known, later, nodes[id as int].b);
        }
    }
}

fn read_const(v: Complex64) -> (r: SymbolicExpr)
    ensures
        r == const_symbol(v),
{
    if check_zero(v.im) {
        if check_integral(v.re) {
            SymbolicExpr::Num(to_i64(v.re))
        } else {
            SymbolicExpr::Float(v.re)
        }
    } else {
        SymbolicExpr::Complex(v)
    }
}

/// The simplified symbol of the expression rooted at `node_id`, or none when the variable
/// occurs in it or a whole number leaves the range of `i64`. What `memo` already says is taken
/// as it is, and what is found is noted there.
pub fn try_interpret_symbolic(
    interner: &Interner,
    node_id: u32,
    memo: &mut FxHashMap<u32, SymbolicExpr>,
) -> (r: Option<SymbolicExpr>)
    requires
        interner.wf(),
        node_id < interner.nodes().len(),
    ensures
        r == symbol_under(interner.nodes(), old(memo)@, node_id),
        old(memo)@.dom().subset_of(final(memo)@.dom()),
        symbols_follow(interner.nodes(), old(memo)@, final(memo)@),
        r is Some ==> final(memo)@.dom() == old(memo)@.dom().union(
            fresh(interner.nodes(), old(memo)@.dom(), node_id),
        ),
    decreases node_id,
{
    let ghost nodes = interner.nodes();
    let ghost known = memo@;
    proof {
        interner.lemma_wf();
        assert(node_ok(nodes, node_id as int));
    }
    if let Some(e) = fx_get(memo, &node_id) {
        proof {
            assert(known.dom().contains(node_id));
            assert(known.dom() =~= known.dom().union(fresh(nodes, known.dom(), node_id)));
        }
        return Some(e.copy());
    }
    let n = *interner.node(node_id);
    let raw = match n.op {
        Op::Var => return None,
        Op::Const => match n.const_val {
            Some(v) => read_const(v),
            None => return None,
        },
        Op::Prim => {
            let left = try_interpret_symbolic(interner, n.a, memo);
            let ghost one = memo@;
            let left = match left {
                Some(left) => left,
                None => return None,
            };
            let right = try_interpret_symbolic(interner, n.b, memo);
            proof {
                lemma_symbol_under_later(nodes, known, one, n.b);
                assert forall|k: u32| #[trigger] memo@.contains_key(k) implies symbol_under(
                    nodes,
                    known,
                    k,
                ) == Some(memo@[k]) by {
                    lemma_symbol_under_later(nodes, known, one, k);
                }
                assert(!known.dom().contains(node_id));
                lemma_fresh_prim(nodes, known.dom(), node_id);
            }
            let right = match right {
                Some(right) => right,
                None => return None,
            };
            SymbolicExpr::Sub(
                Box::new(SymbolicExpr::Exp(Box::new(left))),
                Box::new(SymbolicExpr::Ln(Box::new(right))),
            )
        },
    };
    let ghost two = memo@;
    match reduce_fixed_point(raw) {
        None => None,
        Some(e) => {
            fx_insert(memo, node_id, e.copy());
            proof {
                assert(memo@.dom() =~= two.dom().insert(node_id));
                if n.op != Op::Prim {
                    assert(memo@.dom() =~= known.dom().union(fresh(nodes, known.dom(), node_id)));
                }
            }
            Some(e)
        },
    }
}

/// The simplified symbol of the constant expression rooted at `node_id`. What `memo` already
/// says is taken as it is, and what is found is noted there.
pub fn interpret_symbolic(
    interner: &Interner,
    node_id: u32,
    memo: &mut FxHashMap<u32, SymbolicExpr>,
) -> (r: SymbolicExpr)
    requires
        interner.wf(),
        node_id < interner.nodes().len(),
        symbol_under(interner.nodes(), old(memo)@, node_id) is Some,
    ensures
        Some(r) == symbol_under(interner.nodes(), old(memo)@, node_id),
        symbols_follow(interner.nodes(), old(memo)@, final(memo)@),
        final(memo)@.dom() == old(memo)@.dom().union(
            fresh(interner.nodes(), old(memo)@.dom(), node_id),
        ),
{
    match try_interpret_symbolic(interner, node_id, memo) {
        Some(e) => e,
        None => SymbolicExpr::Num(0),
    }
}

/// A walk from `id` that does not go past `known` does not meet the variable.
pub open spec fn evaluable(nodes: Seq<Node>, known: Set<u32>, id: u32) -> bool
    decreases id,
{
    known.contains(id) || match nodes[id as int].op {
        Op::Var => false,
        Op::Const => true,
        Op::Prim => nodes[id as int].a < id && nodes[id as int].b < id && evaluable(
            nodes,
            known,
            nodes[id as int].a,
        ) && evaluable(nodes, known, nodes[id as int].b),
    }
}

/// More knowledge never stops an evaluation.
proof fn lemma_evaluable_grows(nodes: Seq<Node>, known: Set<u32>, more: Set<u32>, id: u32)
    requires
        known.subset_of(more),
        evaluable(nodes, known, id),
    ensures
        evaluable(nodes, more, id),
    decreases id,
{
    if !more.contains(id) && nodes[id as int].op == Op::Prim {
        lemma_evaluable_grows(nodes, known, more, nodes[id as int].a);
        lemma_evaluable_grows(nodes, known, more, nodes[id as int].b);
    }
}

/// A constant expression can be evaluated, whatever is known.
pub proof fn lemma_constant_evaluable(nodes: Seq<Node>, known: Set<u32>, id: u32)
    requires
        arena_ok(nodes),
        id < nodes.len(),
        constant(tree(nodes, id as int)),
    ensures
        evaluable(nodes, known, id),
    decreases id,
{
    assert(node_ok(nodes, id as int));
    if nodes[id as int].op == Op::Prim {
        lemma_constant_evaluable(nodes, known, nodes[id as int].a);
        lemma_constant_evaluable(nodes, known, nodes[id as int].b);
    }
}

/// The value of node `k` is that of the constant it is, or a value that the primitive may have
/// for the values of its children.
pub open spec fn value_step(nodes: Seq<Node>, values: Map<u32, Complex64>, k: u32) -> bool {
    match nodes[k as int].op {
        Op::Var => false,
        Op::Const => values[k] == nodes[k as int].const_val->0,
        Op::Prim => {
            let (a, b) = (nodes[k as int].a, nodes[k as int].b);
            values.contains_key(a) && values.contains_key(b) && prim_outcome(
                values[a],
                values[b],
                values[k],
            )
        },
    }
}

/// `later` keeps the values of `known`, and each value that it has besides comes from those of
/// the node's children.
pub open spec fn values_follow(
    nodes: Seq<Node>,
    known: Map<u32, Complex64>,
    later: Map<u32, Complex64>,
) -> bool {
    &&& known.submap_of(later)
    &&& forall|k: u32| #[trigger]
        later.contains_key(k) && !known.contains_key(k) ==> value_step(nodes, later, k)
}

/// The value of the constant expression rooted at `node_id`, by `f(a, b) = exp(a) - ln(b)`.
/// What `memo` already says is taken as it is, and what is found is noted there.
pub fn eval_numerical_direct(
    interner: &Interner,
    node_id: u32,
    memo: &mut FxHashMap<u32, Complex64>,
) -> (r: Complex64)
    requires
        interner.wf(),
        node_id < interner.nodes().len(),
        evaluable(interner.nodes(), old(memo)@.dom(), node_id),
    ensures
        final(memo)@.contains_key(node_id),
        r == final(memo)@[node_id],
        final(memo)@.dom() == old(memo)@.dom().union(
            fresh(interner.nodes(), old(memo)@.dom(), node_id),
        ),
        values_follow(interner.nodes(), old(memo)@, final(memo)@),
    decreases node_id,
{
    let ghost nodes = interner.nodes();
    let ghost known = memo@;
    proof {
        interner.lemma_wf();
        assert(node_ok(nodes, node_id as int));
    }
    if let Some(v) = fx_get(memo, &node_id) {
        proof {
            assert(known.dom().contains(node_id));
            assert(known.dom() =~= known.dom().union(fresh(nodes, known.dom(), node_id)));
        }
        return *v;
    }
    let n = *interner.node(node_id);
    let val = match n.op {
        Op::Prim => {
            let a_val = eval_numerical_direct(interner, n.a, memo);
            let ghost one = memo@;
            proof {
                lemma_evaluable_grows(nodes, known.dom(), one.dom(), n.b);
            }
            let b_val = eval_numerical_direct(interner, n.b, memo);
            proof {
                assert(!known.dom().contains(node_id));
                lemma_fresh_prim(nodes, known.dom(), node_id);
                assert(one.dom().contains(n.a));
                assert forall|k: u32| #[trigger]
                    memo@.contains_key(k) && !known.contains_key(k) implies value_step(
                    nodes,
                    memo@,
                    k,
                ) by {
                    if one.contains_key(k) {
                        assert(value_step(nodes, one, k));
                        assert(one.dom().contains(k));
                    }
                }
            }
            eml(a_val, b_val)
        },
        _ => match n.const_val {
            Some(v) => v,
            None => Complex64::new(0, 0),
        },
    };
    let ghost two = memo@;
    fx_insert(memo, node_id, val);
    proof {
        assert(memo@.dom() =~= two.dom().insert(node_id));
        if n.op != Op::Prim {
            assert(memo@.dom() =~= known.dom().union(fresh(nodes, known.dom(), node_id)));
        }
        assert(!two.contains_key(node_id)) by {
            if n.op == Op::Prim {
                // Walks from the children stay below the node.
                lemma_fresh_below(nodes, known.dom(), n.a);
                let one = known.dom().union(fresh(nodes, known.dom(), n.a));
                lemma_fresh_below(nodes, one, n.b);
                assert(two.dom() == one.union(fresh(nodes, one, n.b)));
            }
        }
        assert forall|k: u32| #[trigger]
            memo@.contains_key(k) && !known.contains_key(k) implies value_step(nodes, memo@, k) by {
            if k != node_id {
                assert(two.contains_key(k));
                assert(value_step(nodes, two, k));
            }
        }
    }
    val
}

/// The text of a constant as it is written in an expression.
pub open spec fn const_text(v: Complex64) -> Seq<char> {
    if is_zero(v.im) {
        if is_integral(v.re) {
            signed_decimal(truncated(v.re))
        } else {
            plain_text(v.re)
        }
    } else {
        plain_text(v.re) + "+"@ + plain_text(v.im) + "i"@
    }
}

/// The text of an expression, with the primitive written `eml(a,b)`.
pub open spec fn eml_text(e: Expr) -> Seq<char>
    decreases e,
{
    match e {
        Expr::Var => "x"@,
        Expr::Const(v) => const_text(v),
        Expr::Prim(a, b) => "eml("@ + eml_text(*a) + ","@ + eml_text(*b) + ")"@,
    }
}

fn push_const(out: &mut String, v: Complex64)
    ensures
        final(out)@ == old(out)@ + const_text(v),
        solid(const_text(v)),
{
    if check_zero(v.im) {
        if check_integral(v.re) {
            push_i64(out, to_i64(v.re));
            proof {
                lemma_signed_solid(truncated(v.re));
            }
        } else {
            out.push_str(format_plain(v.re).as_str());
        }
    } else {
        out.push_str(format_plain(v.re).as_str());
        out.push_str("+");
        out.push_str(format_plain(v.im).as_str());
        out.push_str("i");
        proof {
            reveal_strlit("+");
            reveal_strlit("i");
            let (re, im) = (plain_text(v.re), plain_text(v.im));
            lemma_solid_joined(re, "+"@);
            lemma_solid_joined(re + "+"@, im);
            lemma_solid_joined(re + "+"@ + im, "i"@);
        }
        assert(out@ =~= old(out)@ + const_text(v));
    }
}

fn push_eml(out: &mut String, interner: &Interner, node_id: u32)
    requires
        interner.wf(),
        node_id < interner.nodes().len(),
    ensures
        final(out)@ == old(out)@ + eml_text(interner.expr(node_id)),
        solid(eml_text(interner.expr(node_id))),
    decreases node_id,
{
    proof {
        interner.lemma_wf();
        assert(node_ok(interner.nodes(), node_id as int));
    }
    let n = *interner.node(node_id);
    match n.op {
        Op::Var => {
            out.push_str("x");
            proof {
                reveal_strlit("x");
            }
        },
        Op::Const => {
            if let Some(v) = n.const_val {
                push_const(out, v);
            }
        },
        Op::Prim => {
            out.push_str("eml(");
            push_eml(out, interner, n.a);
            out.push_str(",");
            push_eml(out, interner, n.b);
            out.push_str(")");
            proof {
                reveal_strlit("eml(");
                reveal_strlit(",");
                reveal_strlit(")");
                let (a, b) = (eml_text(interner.expr(n.a)), eml_text(interner.expr(n.b)));
                lemma_solid_joined("eml("@, a);
                lemma_solid_joined("eml("@ + a, ","@);
                lemma_solid_joined("eml("@ + a + ","@, b);
                lemma_solid_joined("eml("@ + a + ","@ + b, ")"@);
            }
            assert(out@ =~= old(out)@ + eml_text(interner.expr(node_id)));
        },
    }
}

/// The text of the expression rooted at `node_id`, with the primitive written `eml(a,b)`. It holds
/// no blank.
pub fn to_eml_string(interner: &Interner, node_id: u32) -> (r: String)
    requires
        interner.wf(),
        node_id < interner.nodes().len(),
    ensures
        r@ == eml_text(interner.expr(node_id)),
        solid(r@),
{
    let mut out = String::new();
    push_eml(&mut out, interner, node_id);
    assert(out@ =~= eml_text(interner.expr(node_id)));
    out
}

/// One constant subexpression: its node, what it is exactly and in numbers, and its text.
#[derive(Debug)]
pub struct CatalogEntry {
    pub id: u32,
    pub symbolic: SymbolicExpr,
    pub numeric: Complex64,
    pub eml: String,
}

/// Node `k` is a constant part of the expression rooted at `root`.
pub open spec fn catalogued(nodes: Seq<Node>, root: u32, k: u32) -> bool {
    reaches(nodes, root as int, k as int) && constant(tree(nodes, k as int))
}

/// The simplified symbol of node `id`.
pub open spec fn symbol(nodes: Seq<Node>, id: u32) -> Option<SymbolicExpr> {
    symbol_under(nodes, Map::empty(), id)
}

/// `e` says of its node what there is to say; its number is the one in `values`.
pub open spec fn entry_ok(nodes: Seq<Node>, values: Map<u32, Complex64>, e: CatalogEntry) -> bool {
    &&& symbol(nodes, e.id) == Some(e.symbolic)
    &&& e.eml@ == eml_text(tree(nodes, e.id as int))
    &&& values.contains_key(e.id)
    &&& values[e.id] == e.numeric
}

/// `entries` holds the constant parts of the expression rooted at `root` with an index below
/// `end`, each once, in the order of their indices.
pub open spec fn entries_ok(
    nodes: Seq<Node>,
    root: u32,
    values: Map<u32, Complex64>,
    entries: Seq<CatalogEntry>,
    end: int,
) -> bool {
    &&& values_follow(nodes, Map::empty(), values)
    &&& forall|i: int|
        0 <= i < entries.len() ==> entry_ok(nodes, values, #[trigger] entries[i]) && entries[i].id
            < end && catalogued(nodes, root, entries[i].id)
    &&& forall|i: int, j: int|
        0 <= i < j < entries.len() ==> (#[trigger] entries[i]).id < (#[trigger] entries[j]).id
    &&& forall|k: u32|
        #![trigger catalogued(nodes, root, k)]
        k < end && catalogued(nodes, root, k) ==> exists|i: int|
            0 <= i < entries.len() && (#[trigger] entries[i]).id == k
}

/// `entries` holds the constant parts of the expression rooted at `root`, each once, in the
/// order of their indices.
pub open spec fn catalog_ok(
    nodes: Seq<Node>,
    root: u32,
    values: Map<u32, Complex64>,
    entries: Seq<CatalogEntry>,
) -> bool {
    entries_ok(nodes, root, values, entries, root + 1)
}

/// The constant parts of the expression rooted at `root`, the root itself among them when it is
/// constant, in the order of their indices. There is no catalog when the symbol of one of them
/// has a whole number outside the range of `i64`.
pub fn constant_catalog(interner: &Interner, root: u32) -> (r: Option<Vec<CatalogEntry>>)
    requires
        interner.wf(),
        root < interner.nodes().len(),
    ensures
        r is Some <==> forall|k: u32| #[trigger]
            catalogued(interner.nodes(), root, k) ==> symbol(interner.nodes(), k) is Some,
        r matches Some(entries) ==> exists|values: Map<u32, Complex64>| #[trigger]
            catalog_ok(interner.nodes(), root, values, entries@),
        r matches Some(entries) ==> forall|i: int|
            0 <= i < entries@.len() ==> solid((#[trigger] entries@[i]).eml@),
{
    let ghost nodes = interner.nodes();
    proof {
        interner.lemma_wf();
    }
    let marks = parts(interner, root);
    let mut is_const: FxHashMap<u32, bool> = fx_new();
    let mut symbols: FxHashMap<u32, SymbolicExpr> = fx_new();
    let mut numbers: FxHashMap<u32, Complex64> = fx_new();
    let mut entries: Vec<CatalogEntry> = Vec::new();
    let mut id: u32 = 0;
    while id <= root
        invariant
            interner.wf(),
            nodes == interner.nodes(),
            arena_ok(nodes),
            root < nodes.len(),
            id <= root + 1,
            marks@.len() == root + 1,
            forall|k: int|
                0 <= k <= root ==> #[trigger] marks@[k] == reaches(nodes, root as int, k),
            forall|k: u32| #[trigger]
                is_const@.contains_key(k) ==> k < nodes.len() && is_const@[k] == constant(
                    tree(nodes, k as int),
                ),
            symbols_follow(nodes, Map::empty(), symbols@),
            entries_ok(nodes, root, numbers@, entries@, id as int),
            forall|i: int| 0 <= i < entries@.len() ==> solid((#[trigger] entries@[i]).eml@),
        decreases root + 1 - id,
    {
        if marks[id as usize] {
            let ghost before = is_const@;
            proof {
                law_constant_without_variable(nodes, before, id);
            }
            let here = is_constant_node(interner, id, &mut is_const);
            proof {
                lemma_fresh_below(nodes, before.dom(), id);
                assert forall|k: u32| #[trigger] is_const@.contains_key(k) implies k < nodes.len()
                    && is_const@[k] == constant(tree(nodes, k as int)) by {
                    if before.contains_key(k) {
                        assert(before.dom().contains(k));
                    } else {
                        assert(is_const@.dom().contains(k));
                        assert(fresh(nodes, before.dom(), id).contains(k));
                    }
                    law_constant_without_variable(nodes, before, k);
                }
            }
            if here {
                let ghost known = symbols@;
                proof {
                    assert(Map::<u32, SymbolicExpr>::empty().dom().subset_of(known.dom()));
                    lemma_symbol_under_later(nodes, Map::empty(), known, id);
                    assert(catalogued(nodes, root, id));
                }
                let symbolic = match try_interpret_symbolic(interner, id, &mut symbols) {
                    Some(e) => e,
                    None => return None,
                };
                let ghost values = numbers@;
                proof {
                    assert forall|k: u32| #[trigger] symbols@.contains_key(k) implies symbol_under(
                        nodes,
                        Map::empty(),
                        k,
                    ) == Some(symbols@[k]) by {
                        lemma_symbol_under_later(nodes, Map::empty(), known, k);
                    }
                    lemma_constant_evaluable(nodes, values.dom(), id);
                }
                let numeric = eval_numerical_direct(interner, id, &mut numbers);
                let eml = to_eml_string(interner, id);
                let ghost earlier = entries@;
                entries.push(CatalogEntry { id, symbolic, numeric, eml });
                proof {
                    lemma_values_compose(nodes, values, numbers@);
                    assert forall|i: int| 0 <= i < entries@.len() implies entry_ok(
                        nodes,
                        numbers@,
                        #[trigger] entries@[i],
                    ) && entries@[i].id < id + 1 && catalogued(nodes, root, entries@[i].id) by {
                        if i < earlier.len() {
                            assert(entry_ok(nodes, values, earlier[i]));
                            assert(values.dom().contains(earlier[i].id));
                        }
                    }
                    assert forall|k: u32|
                        #![trigger catalogued(nodes, root, k)]
                        k < id + 1 && catalogued(nodes, root, k) implies exists|i: int|
                        0 <= i < entries@.len() && (#[trigger] entries@[i]).id == k by {
                        if k < id {
                            let i = choose|i: int|
                                0 <= i < earlier.len() && (#[trigger] earlier[i]).id == k;
                            assert(entries@[i].id == k);
                        } else {
                            assert(entries@[earlier.len() as int].id == k);
                        }
                    }
                }
            }
        }
        id += 1;
    }
    proof {
        assert forall|k: u32| #[trigger] catalogued(nodes, root, k) implies symbol(
            nodes,
            k,
        ) is Some by {
            lemma_reaches_below(nodes, root as int, k as int);
            let i = choose|i: int| 0 <= i < entries@.len() && (#[trigger] entries@[i]).id == k;
            assert(entry_ok(nodes, numbers@, entries@[i]));
        }
        assert(catalog_ok(nodes, root, numbers@, entries@));
    }
    let ghost listed = entries@;
    let r = Some(entries);
    assert(r->0@ == listed);
    r
}

/// Values that follow from values that follow, follow.
proof fn lemma_values_compose(
    nodes: Seq<Node>,
    known: Map<u32, Complex64>,
    later: Map<u32, Complex64>,
)
    requires
        values_follow(nodes, Map::empty(), known),
        values_follow(nodes, known, later),
    ensures
        values_follow(nodes, Map::empty(), later),
{
    assert forall|k: u32| #[trigger]
        later.contains_key(k) && !Map::<u32, Complex64>::empty().contains_key(k) implies value_step(
        nodes,
        later,
        k,
    ) by {
        if known.contains_key(k) {
            assert(value_step(nodes, known, k));
            assert(known.dom().contains(k));
            if nodes[k as int].op == Op::Prim {
                assert(known.dom().contains(nodes[k as int].a));
                assert(known.dom().contains(nodes[k as int].b));
            }
        }
    }
}

/// `1e-12`: a part of a number that is smaller is left out of the catalog.
pub const NEGLIGIBLE: u64 = 0x3d71_9799_812d_ea11;

pub open spec fn negligible(b: u64) -> bool {
    float_lt(magnitude(b) as u64, NEGLIGIBLE)
}

/// A number with six decimals, without a part that is negligible.
pub open spec fn number_text(z: Complex64) -> Seq<char> {
    if negligible(z.im) {
        fixed_text(z.re, 6)
    } else if negligible(z.re) {
        fixed_text(z.im, 6) + "i"@
    } else {
        fixed_text(z.re, 6) + " + "@ + fixed_text(z.im, 6) + "i"@
    }
}

/// The lines of an entry, and an empty one behind them.
pub open spec fn entry_text(e: CatalogEntry) -> Seq<char> {
    "id "@ + decimal(e.id as nat) + ":"@ + "\n"@ + "  Symbolic Value  : "@ + clean_text(e.symbolic)
        + "\n"@ + "  Numerical Value : "@ + number_text(e.numeric) + "\n"@
        + "  EML Subtree     : "@ + e.eml@ + "\n"@ + "\n"@
}

/// The lines above the entries.
pub open spec fn heading() -> Seq<char> {
    "========================================================="@ + "\n"@
        + "          SYMBOLIC CONSTANT SUBTREES CATALOG             "@ + "\n"@
        + "========================================================="@ + "\n"@ + "\n"@
}

/// The text of a catalog: a heading, and the entries in order.
pub open spec fn catalog_text(entries: Seq<CatalogEntry>) -> Seq<char>
    decreases entries.len(),
{
    if entries.len() == 0 {
        heading()
    } else {
        catalog_text(entries.drop_last()) + entry_text(entries.last())
    }
}

/// What is written of an entry besides its subexpression is in lines.
pub open spec fn texts_plain(e: CatalogEntry) -> bool {
    plain_line(clean_text(e.symbolic)) && one_line(number_text(e.numeric))
}

/// All that is written of an entry is in lines.
pub open spec fn entry_plain(e: CatalogEntry) -> bool {
    texts_plain(e) && plain_line(e.eml@)
}

fn check_negligible(b: u64) -> (r: bool)
    ensures
        r == negligible(b),
{
    lt(get_magnitude(b), NEGLIGIBLE)
}

fn push_number(out: &mut String, z: Complex64)
    ensures
        final(out)@ == old(out)@ + number_text(z),
        one_line(number_text(z)),
{
    let (re, im) = (format_fixed(z.re, 6), format_fixed(z.im, 6));
    proof {
        reveal_strlit("i");
        reveal_strlit(" + ");
        lemma_solid(re@);
        lemma_solid(im@);
        lemma_joined(im@, Seq::empty(), "i"@);
        lemma_joined(re@, " + "@, im@ + Seq::empty() + "i"@);
        assert(im@ + Seq::empty() + "i"@ =~= im@ + "i"@);
        assert(re@ + " + "@ + (im@ + "i"@) =~= re@ + " + "@ + im@ + "i"@);
    }
    if check_negligible(z.im) {
        out.push_str(re.as_str());
    } else if check_negligible(z.re) {
        out.push_str(im.as_str());
        out.push_str("i");
    } else {
        out.push_str(re.as_str());
        out.push_str(" + ");
        out.push_str(im.as_str());
        out.push_str("i");
    }
    assert(out@ =~= old(out)@ + number_text(z));
}

fn push_entry(out: &mut String, e: &CatalogEntry)
    ensures
        final(out)@ == old(out)@ + entry_text(*e),
        texts_plain(*e),
{
    out.push_str("id ");
    push_u64(out, e.id as u64);
    out.push_str(":");
    out.push_str("\n");
    out.push_str("  Symbolic Value  : ");
    out.push_str(e.symbolic.format_clean().as_str());
    out.push_str("\n");
    out.push_str("  Numerical Value : ");
    push_number(out, e.numeric);
    out.push_str("\n");
    out.push_str("  EML Subtree     : ");
    out.push_str(e.eml.as_str());
    out.push_str("\n");
    out.push_str("\n");
    assert(out@ =~= old(out)@ + entry_text(*e));
}

/// The text of a catalog.
pub fn format_catalog(entries: &Vec<CatalogEntry>) -> (r: String)
    ensures
        r@ == catalog_text(entries@),
        forall|i: int| 0 <= i < entries@.len() ==> texts_plain(#[trigger] entries@[i]),
{
    let mut out = String::new();
    out.push_str("=========================================================");
    out.push_str("\n");
    out.push_str("          SYMBOLIC CONSTANT SUBTREES CATALOG             ");
    out.push_str("\n");
    out.push_str("=========================================================");
    out.push_str("\n");
    out.push_str("\n");
    assert(out@ =~= heading());
    assert(entries@.take(0) =~= Seq::<CatalogEntry>::empty());
    let mut i: usize = 0;
    while i < entries.len()
        invariant
            i <= entries@.len(),
            out@ == catalog_text(entries@.take(i as int)),
            forall|j: int| 0 <= j < i ==> texts_plain(#[trigger] entries@[j]),
        decreases entries@.len() - i,
    {
        push_entry(&mut out, &entries[i]);
        assert(entries@.take(i + 1).drop_last() =~= entries@.take(i as int));
        i += 1;
    }
    assert(entries@.take(entries@.len() as int) =~= entries@);
    out
}

/// The text of the catalog of the constant parts of the expression rooted at `root_id`, ready
/// to be written to a file. There is none when there is no catalog. What is read from the text is
/// what was written.
pub fn export_constant_catalog(interner: &Interner, root_id: u32) -> (r: Option<String>)
    requires
        interner.wf(),
        root_id < interner.nodes().len(),
    ensures
        r is Some <==> forall|k: u32| #[trigger]
            catalogued(interner.nodes(), root_id, k) ==> symbol(interner.nodes(), k) is Some,
        r matches Some(text) ==> exists|values: Map<u32, Complex64>, entries: Seq<CatalogEntry>|
            #[trigger] catalog_ok(interner.nodes(), root_id, values, entries) && text@
                == catalog_text(entries) && reads_back(text@, entries),
{
    match constant_catalog(interner, root_id) {
        None => None,
        Some(entries) => {
            let text = format_catalog(&entries);
            proof {
                assert forall|i: int| 0 <= i < entries@.len() implies entry_plain(
                    #[trigger] entries@[i],
                ) by {
                    lemma_solid(entries@[i].eml@);
                }
                law_catalog_is_read_back(entries@);
            }
            Some(text)
        },
    }
}

} // verus!
