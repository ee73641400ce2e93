//! Expressions as lists of steps, each of which uses earlier ones.
//!
//! An expression is turned into such a plan to be evaluated, and to be rebuilt in another
//! interner.

use vstd::prelude::*;

use crate::arena::{
    arena_ok, const_ids, const_node, const_step, const_value, consts_apart, distances_agree, extends,
    first_hit, law_constants_apart_are_separated, law_same_expression_same_index, lemma_arena_ok_push,
    lemma_const_ids,
    lemma_first_hit, lemma_tree_extends, lemma_verdicts_agree, no_duplicates, node_ok, prim_at,
    prim_known, prim_node, prim_step, tree, var_known, var_node, var_step, verdicts_possible,
    Interner, Node, Op, NIL,
};
use crate::complex::{may_be_within, Complex64};
use crate::config::MACHINE_TOLERANCE;
use crate::expr::{may_replace, mentions, stands_for, well_separated, Expr};
use crate::fx::fx_get;
use crate::graph::{
    after_children, children_first, lemma_post_order, lemma_reaches_below, lemma_visit_extends,
    places_ok, post_order, reaches, visit, walk,
};

verus! {

/// One step of the evaluation of an expression. The operands of a primitive are the results of
/// earlier steps.
#[derive(Clone, Copy, Debug, PartialEq, Eq, Structural)]
pub enum Step {
    Var,
    Const(Complex64),
    Prim(usize, usize),
}

/// Step `k` only uses earlier steps.
pub open spec fn step_ok(plan: Seq<Step>, k: int) -> bool {
    plan[k] matches Step::Prim(i, j) ==> i < k && j < k
}

/// Every step only uses earlier ones.
pub open spec fn steps_ok(plan: Seq<Step>) -> bool {
    forall|k: int| 0 <= k < plan.len() ==> #[trigger] step_ok(plan, k)
}

/// There is a step, and every step only uses earlier ones.
pub open spec fn plan_ok(plan: Seq<Step>) -> bool {
    plan.len() > 0 && steps_ok(plan)
}

/// `values` is what the steps may give at `x`, when constants and the variable are brought into
/// the arithmetic by `lift` and the primitive is `prim`.
pub open spec fn values_of<T, L: Fn(Complex64) -> T, P: Fn(&T, &T) -> T>(
    plan: Seq<Step>,
    x: Complex64,
    lift: L,
    prim: P,
    values: Seq<T>,
) -> bool {
    values.len() == plan.len() && forall|k: int|
        0 <= k < plan.len() ==> match plan[k] {
            Step::Var => call_ensures(lift, (x,), #[trigger] values[k]),
            Step::Const(v) => call_ensures(lift, (v,), values[k]),
            Step::Prim(i, j) => call_ensures(prim, (&values[i as int], &values[j as int]), values[k]),
        }
}

/// Runs the steps of a plan at `x` in some arithmetic, and returns what the last one gives.
pub fn run_plan<T, L: Fn(Complex64) -> T, P: Fn(&T, &T) -> T>(
    plan: &Vec<Step>,
    x: Complex64,
    lift: &L,
    prim: &P,
) -> (r: T)
    requires
        plan_ok(plan@),
        forall|z: Complex64| call_requires(*lift, (z,)),
        forall|a: &T, b: &T| call_requires(*prim, (a, b)),
    ensures
        exists|values: Seq<T>| #[trigger]
            values_of(plan@, x, *lift, *prim, values) && r == values.last(),
{
    let mut values: Vec<T> = Vec::new();
    let mut k: usize = 0;
    while k < plan.len()
        invariant
            k <= plan@.len(),
            plan_ok(plan@),
            forall|z: Complex64| call_requires(*lift, (z,)),
            forall|a: &T, b: &T| call_requires(*prim, (a, b)),
            values@.len() == k,
            forall|m: int|
                0 <= m < k ==> match plan@[m] {
                    Step::Var => call_ensures(*lift, (x,), #[trigger] values@[m]),
                    Step::Const(v) => call_ensures(*lift, (v,), values@[m]),
                    Step::Prim(i, j) => call_ensures(
                        *prim,
                        (&values@[i as int], &values@[j as int]),
                        values@[m],
                    ),
                },
        decreases plan@.len() - k,
    {
        assert(step_ok(plan@, k as int));
        let ghost before = values@;
        let value = match plan[k] {
            Step::Var => lift(x),
            Step::Const(v) => lift(v),
            Step::Prim(i, j) => prim(&values[i], &values[j]),
        };
        values.push(value);
        proof {
            assert forall|m: int| 0 <= m < k + 1 implies match plan@[m] {
                Step::Var => call_ensures(*lift, (x,), #[trigger] values@[m]),
                Step::Const(v) => call_ensures(*lift, (v,), values@[m]),
                Step::Prim(i, j) => call_ensures(
                    *prim,
                    (&values@[i as int], &values@[j as int]),
                    values@[m],
                ),
            } by {
                assert(step_ok(plan@, m));
                if m < k {
                    assert(values@[m] == before[m]);
                }
            }
        }
        k += 1;
    }
    let ghost all = values@;
    proof {
        assert(values_of(plan@, x, *lift, *prim, all));
    }
    values.pop().unwrap()
}

/// The expression whose value step `k` gives.
pub open spec fn step_tree(plan: Seq<Step>, k: int) -> Expr
    decreases k,
{
    match plan[k] {
        Step::Var => Expr::Var,
        Step::Const(v) => Expr::Const(v),
        Step::Prim(i, j) => if 0 <= i < k && 0 <= j < k {
            Expr::Prim(
                Box::new(step_tree(plan, i as int)),
                Box::new(step_tree(plan, j as int)),
            )
        } else {
            Expr::Var
        },
    }
}

/// The value of an expression at `x` in an arithmetic that has exactly one value for everything.
pub open spec fn value_at<T>(
    e: Expr,
    x: Complex64,
    lift: spec_fn(Complex64) -> T,
    prim: spec_fn(T, T) -> T,
) -> T
    decreases e,
{
    match e {
        Expr::Var => lift(x),
        Expr::Const(v) => lift(v),
        Expr::Prim(a, b) => prim(value_at(*a, x, lift, prim), value_at(*b, x, lift, prim)),
    }
}

/// In an arithmetic that has exactly one value for everything, running a plan gives at each step
/// the value of the expression that the step stands for.
pub proof fn law_plan_value<T, L: Fn(Complex64) -> T, P: Fn(&T, &T) -> T>(
    plan: Seq<Step>,
    x: Complex64,
    lift: L,
    prim: P,
    values: Seq<T>,
    exact_lift: spec_fn(Complex64) -> T,
    exact_prim: spec_fn(T, T) -> T,
    k: int,
)
    requires
        plan_ok(plan),
        values_of(plan, x, lift, prim, values),
        forall|z: Complex64, r: T| #[trigger] call_ensures(lift, (z,), r) ==> r == exact_lift(z),
        forall|a: T, b: T, r: T| #[trigger]
            call_ensures(prim, (&a, &b), r) ==> r == exact_prim(a, b),
        0 <= k < plan.len(),
    ensures
        values[k] == value_at(step_tree(plan, k), x, exact_lift, exact_prim),
    decreases k,
{
    assert(step_ok(plan, k));
    let r = values[k];
    if let Step::Prim(i, j) = plan[k] {
        law_plan_value(plan, x, lift, prim, values, exact_lift, exact_prim, i as int);
        law_plan_value(plan, x, lift, prim, values, exact_lift, exact_prim, j as int);
        assert(call_ensures(prim, (&values[i as int], &values[j as int]), r));
        assert(step_tree(plan, k) == Expr::Prim(
            Box::new(step_tree(plan, i as int)),
            Box::new(step_tree(plan, j as int)),
        ));
    }
}

/// The step that evaluates node `id`, when the nodes of `order` are evaluated in that order.
pub open spec fn step_at(nodes: Seq<Node>, order: Seq<u32>, id: u32) -> Step {
    let n = nodes[id as int];
    match n.op {
        Op::Var => Step::Var,
        Op::Const => Step::Const(n.const_val->0),
        Op::Prim => Step::Prim(order.index_of(n.a) as usize, order.index_of(n.b) as usize),
    }
}

/// The plan for the expression rooted at `root`: a step for each of its nodes, in the order of
/// a walk.
pub open spec fn plan_at(nodes: Seq<Node>, root: u32) -> Seq<Step> {
    let order = post_order(nodes, root);
    Seq::new(order.len(), |k: int| step_at(nodes, order, order[k]))
}

/// A child of the node at place `k` has a place before `k`.
pub proof fn lemma_child_place(order: Seq<u32>, k: int, child: u32)
    requires
        0 <= k < order.len(),
        order.take(k).contains(child),
        order.no_duplicates(),
    ensures
        0 <= order.index_of(child) < k,
        order[order.index_of(child)] == child,
{
    let before = order.take(k);
    let j = choose|j: int| 0 <= j < before.len() && before[j] == child;
    assert(order[j] == child);
    let i = order.index_of(child);
    assert(0 <= i < order.len() && order[i] == child);
    assert(i == j);
}

/// Each step of a plan gives the value of the node it was made for.
proof fn lemma_plan(nodes: Seq<Node>, root: u32, k: int)
    requires
        arena_ok(nodes),
        root < nodes.len(),
        0 <= k < post_order(nodes, root).len(),
    ensures
        step_ok(plan_at(nodes, root), k),
        step_tree(plan_at(nodes, root), k) == tree(nodes, post_order(nodes, root)[k] as int),
    decreases k,
{
    lemma_post_order(nodes, root);
    let order = post_order(nodes, root);
    let plan = plan_at(nodes, root);
    let id = order[k];
    assert(order.contains(id));
    assert(reaches(nodes, root as int, id as int));
    lemma_reaches_below(nodes, root as int, id as int);
    assert(node_ok(nodes, id as int));
    assert(after_children(nodes, order, k));
    let n = nodes[id as int];
    if n.op == Op::Prim {
        lemma_child_place(order, k, n.a);
        lemma_child_place(order, k, n.b);
        lemma_plan(nodes, root, order.index_of(n.a));
        lemma_plan(nodes, root, order.index_of(n.b));
    }
}

/// The plan of an expression evaluates that expression.
pub proof fn law_plan_denotes(nodes: Seq<Node>, root: u32)
    requires
        arena_ok(nodes),
        root < nodes.len(),
    ensures
        plan_ok(plan_at(nodes, root)),
        step_tree(plan_at(nodes, root), plan_at(nodes, root).len() - 1) == tree(
            nodes,
            root as int,
        ),
{
    lemma_post_order(nodes, root);
    let plan = plan_at(nodes, root);
    assert forall|k: int| 0 <= k < plan.len() implies #[trigger] step_ok(plan, k) by {
        lemma_plan(nodes, root, k);
    }
    lemma_plan(nodes, root, plan.len() - 1);
}

/// The plan of an expression does not change when nodes are added.
pub proof fn lemma_plan_extends(earlier: Seq<Node>, later: Seq<Node>, root: u32)
    requires
        arena_ok(earlier),
        extends(earlier, later),
        root < earlier.len(),
    ensures
        plan_at(later, root) == plan_at(earlier, root),
{
    lemma_visit_extends(earlier, later, Seq::empty(), root);
    lemma_post_order(earlier, root);
    let order = post_order(earlier, root);
    assert forall|k: int| 0 <= k < order.len() implies #[trigger] plan_at(later, root)[k]
        == plan_at(earlier, root)[k] by {
        assert(order.contains(order[k]));
        assert(reaches(earlier, root as int, order[k] as int));
        lemma_reaches_below(earlier, root as int, order[k] as int);
        assert(later[order[k] as int] == earlier[order[k] as int]);
    }
    assert(plan_at(later, root) =~= plan_at(earlier, root));
}

/// The nodes of two orders stand for the same expressions, place by place.
pub open spec fn matched(m: Seq<Node>, c: Seq<u32>, n: Seq<Node>, d: Seq<u32>) -> bool {
    c.len() == d.len() && forall|k: int|
        0 <= k < c.len() ==> (#[trigger] c[k]) < m.len() && d[k] < n.len() && tree(m, c[k] as int) == tree(
            n,
            d[k] as int,
        )
}

/// Two nodes with the same expression stand at the same places.
pub proof fn lemma_matched_places(
    m: Seq<Node>,
    c: Seq<u32>,
    i: u32,
    n: Seq<Node>,
    d: Seq<u32>,
    j: u32,
    k: int,
)
    requires
        arena_ok(m),
        no_duplicates(m),
        arena_ok(n),
        no_duplicates(n),
        i < m.len(),
        j < n.len(),
        tree(m, i as int) == tree(n, j as int),
        matched(m, c, n, d),
        0 <= k < c.len(),
    ensures
        c[k] == i <==> d[k] == j,
{
    if c[k] == i {
        law_same_expression_same_index(n, d[k] as int, j as int);
    }
    if d[k] == j {
        law_same_expression_same_index(m, c[k] as int, i as int);
    }
}

/// Walks of equal expressions in two arenas go the same way.
proof fn lemma_visits_match(
    m: Seq<Node>,
    c: Seq<u32>,
    i: u32,
    n: Seq<Node>,
    d: Seq<u32>,
    j: u32,
)
    requires
        arena_ok(m),
        no_duplicates(m),
        arena_ok(n),
        no_duplicates(n),
        i < m.len(),
        j < n.len(),
        tree(m, i as int) == tree(n, j as int),
        matched(m, c, n, d),
    ensures
        matched(m, visit(m, c, i), n, visit(n, d, j)),
    decreases i,
{
    assert(c.contains(i) == d.contains(j)) by {
        if c.contains(i) {
            let k = choose|k: int| 0 <= k < c.len() && c[k] == i;
            lemma_matched_places(m, c, i, n, d, j, k);
            assert(d[k] == j);
        }
        if d.contains(j) {
            let k = choose|k: int| 0 <= k < d.len() && d[k] == j;
            lemma_matched_places(m, c, i, n, d, j, k);
            assert(c[k] == i);
        }
    }
    if !c.contains(i) {
        assert(node_ok(m, i as int));
        assert(node_ok(n, j as int));
        let (p, q) = (m[i as int], n[j as int]);
        if p.op == Op::Prim {
            assert(tree(m, i as int) == Expr::Prim(
                Box::new(tree(m, p.a as int)),
                Box::new(tree(m, p.b as int)),
            ));
            assert(q.op == Op::Prim);
            assert(tree(n, j as int) == Expr::Prim(
                Box::new(tree(n, q.a as int)),
                Box::new(tree(n, q.b as int)),
            ));
            lemma_visits_match(m, c, p.a, n, d, q.a);
            lemma_visits_match(m, visit(m, c, p.a), p.b, n, visit(n, d, q.a), q.b);
        }
    }
}

/// The nodes of the same expression are walked in the same order, whatever arena it stands in.
pub proof fn lemma_orders_match(m: Seq<Node>, i: u32, n: Seq<Node>, j: u32)
    requires
        arena_ok(m),
        no_duplicates(m),
        arena_ok(n),
        no_duplicates(n),
        i < m.len(),
        j < n.len(),
        tree(m, i as int) == tree(n, j as int),
    ensures
        matched(m, post_order(m, i), n, post_order(n, j)),
{
    let none = Seq::<u32>::empty();
    lemma_visits_match(m, none, i, n, none, j);
}

/// The same expression has the same plan, whatever arena it stands in, so that it is sampled in
/// the same way and has the same fingerprint.
pub proof fn law_same_expression_same_plan(m: Seq<Node>, i: u32, n: Seq<Node>, j: u32)
    requires
        arena_ok(m),
        no_duplicates(m),
        arena_ok(n),
        no_duplicates(n),
        i < m.len(),
        j < n.len(),
        tree(m, i as int) == tree(n, j as int),
    ensures
        plan_at(m, i) == plan_at(n, j),
{
    lemma_orders_match(m, i, n, j);
    lemma_post_order(m, i);
    lemma_post_order(n, j);
    let (c, d) = (post_order(m, i), post_order(n, j));
    assert forall|k: int| 0 <= k < c.len() implies #[trigger] plan_at(m, i)[k] == plan_at(n, j)[k] by {
        let (p, q) = (m[c[k] as int], n[d[k] as int]);
        assert(node_ok(m, c[k] as int));
        assert(node_ok(n, d[k] as int));
        if p.op == Op::Prim {
            assert(tree(m, c[k] as int) == Expr::Prim(
                Box::new(tree(m, p.a as int)),
                Box::new(tree(m, p.b as int)),
            ));
            assert(q.op == Op::Prim);
            assert(tree(n, d[k] as int) == Expr::Prim(
                Box::new(tree(n, q.a as int)),
                Box::new(tree(n, q.b as int)),
            ));
            assert(after_children(m, c, k));
            assert(after_children(n, d, k));
            lemma_child_place(c, k, p.a);
            lemma_child_place(c, k, p.b);
            lemma_child_place(d, k, q.a);
            lemma_child_place(d, k, q.b);
            lemma_matched_places(m, c, p.a, n, d, q.a, c.index_of(p.a));
            lemma_matched_places(m, c, p.b, n, d, q.b, c.index_of(p.b));
        }
    }
    assert(plan_at(m, i) =~= plan_at(n, j));
}

/// The plan for the expression rooted at `node`.
pub fn make_plan(interner: &Interner, node: u32) -> (plan: Vec<Step>)
    requires
        interner.wf(),
        node < interner.nodes().len(),
    ensures
        plan@ == plan_at(interner.nodes(), node),
        plan_ok(plan@),
        step_tree(plan@, plan@.len() - 1) == interner.expr(node),
{
    let ghost nodes = interner.nodes();
    let (order, places) = walk(interner, node);
    proof {
        interner.lemma_wf();
        lemma_post_order(nodes, node);
        law_plan_denotes(nodes, node);
    }
    let mut plan: Vec<Step> = Vec::new();
    let mut k: usize = 0;
    while k < order.len()
        invariant
            interner.wf(),
            nodes == interner.nodes(),
            arena_ok(nodes),
            node < nodes.len(),
            order@ == post_order(nodes, node),
            order@.no_duplicates(),
            children_first(nodes, order@),
            forall|x: u32| order@.contains(x) ==> #[trigger] reaches(nodes, node as int, x as int),
            places_ok(order@, places@),
            k <= order@.len(),
            plan@.len() == k,
            forall|m: int| 0 <= m < k ==> #[trigger] plan@[m] == plan_at(nodes, node)[m],
        decreases order@.len() - k,
    {
        let id = order[k];
        proof {
            assert(order@.contains(id));
            assert(reaches(nodes, node as int, id as int));
            lemma_reaches_below(nodes, node as int, id as int);
            assert(node_ok(nodes, id as int));
            assert(after_children(nodes, order@, k as int));
        }
        let n = *interner.node(id);
        let step = match n.op {
            Op::Var => Step::Var,
            Op::Const => match n.const_val {
                Some(v) => Step::Const(v),
                None => Step::Var,
            },
            Op::Prim => {
                proof {
                    lemma_child_place(order@, k as int, n.a);
                    lemma_child_place(order@, k as int, n.b);
                    assert(order@.contains(n.a));
                    assert(order@.contains(n.b));
                }
                match (fx_get(&places, &n.a), fx_get(&places, &n.b)) {
                    (Some(i), Some(j)) => Step::Prim(*i, *j),
                    _ => Step::Var,
                }
            },
        };
        plan.push(step);
        k += 1;
    }
    assert(plan@ =~= plan_at(nodes, node));
    plan
}

/// The nodes, and the indices of the results, after the first `k` steps have been interned.
/// `verdicts` says for each step which of the constants already there are close enough to stand
/// for it, if it is a constant.
pub open spec fn steps_run(
    before: Seq<Node>,
    plan: Seq<Step>,
    verdicts: Seq<Seq<bool>>,
    k: int,
) -> (Seq<Node>, Seq<u32>)
    decreases k,
{
    if k <= 0 {
        (before, Seq::empty())
    } else {
        let (nodes, ids) = steps_run(before, plan, verdicts, k - 1);
        let (after, id) = match plan[k - 1] {
            Step::Var => var_step(nodes),
            Step::Const(v) => const_step(nodes, v, verdicts[k - 1]),
            Step::Prim(i, j) => prim_step(nodes, ids[i as int], ids[j as int]),
        };
        (after, ids.push(id as u32))
    }
}

/// `verdicts` is what the distance test may say while the first `n` steps are interned.
pub open spec fn steps_possible(
    before: Seq<Node>,
    plan: Seq<Step>,
    verdicts: Seq<Seq<bool>>,
    n: int,
) -> bool {
    verdicts.len() == n && forall|k: int|
        #![trigger verdicts[k]]
        0 <= k < n ==> (plan[k] matches Step::Const(v) ==> verdicts_possible(
            steps_run(before, plan, verdicts, k).0,
            v,
            verdicts[k],
        ))
}

/// Interning the steps of a plan may lead from the nodes `before` to the nodes `after`, with
/// the results at `ids`.
pub open spec fn steps_interned(
    before: Seq<Node>,
    plan: Seq<Step>,
    after: Seq<Node>,
    ids: Seq<u32>,
) -> bool {
    exists|verdicts: Seq<Seq<bool>>| #[trigger]
        steps_possible(before, plan, verdicts, plan.len() as int) && steps_run(
            before,
            plan,
            verdicts,
            plan.len() as int,
        ) == (after, ids)
}

/// What interning the first `k` steps leads to is determined, where the distance test says the same
/// each time.
proof fn lemma_steps_agree(
    before: Seq<Node>,
    plan: Seq<Step>,
    first: Seq<Seq<bool>>,
    second: Seq<Seq<bool>>,
    k: int,
)
    requires
        distances_agree(),
        steps_possible(before, plan, first, plan.len() as int),
        steps_possible(before, plan, second, plan.len() as int),
        0 <= k <= plan.len(),
    ensures
        steps_run(before, plan, first, k) == steps_run(before, plan, second, k),
    decreases k,
{
    if k > 0 {
        lemma_steps_agree(before, plan, first, second, k - 1);
        if let Step::Const(v) = plan[k - 1] {
            let nodes = steps_run(before, plan, first, k - 1).0;
            assert(verdicts_possible(nodes, v, first[k - 1]));
            assert(verdicts_possible(nodes, v, second[k - 1]));
            lemma_verdicts_agree(nodes, v, first[k - 1], second[k - 1]);
        }
    }
}

/// Interning the same steps twice from the same nodes leads to the same nodes and the same indices,
/// where the distance test says the same each time.
pub proof fn law_interning_steps_repeats(
    before: Seq<Node>,
    plan: Seq<Step>,
    one: Seq<Node>,
    i: Seq<u32>,
    two: Seq<Node>,
    j: Seq<u32>,
)
    requires
        distances_agree(),
        steps_interned(before, plan, one, i),
        steps_interned(before, plan, two, j),
    ensures
        one == two,
        i == j,
{
    let n = plan.len() as int;
    let v = choose|v: Seq<Seq<bool>>| #[trigger]
        steps_possible(before, plan, v, n) && steps_run(before, plan, v, n) == (one, i);
    let w = choose|w: Seq<Seq<bool>>| #[trigger]
        steps_possible(before, plan, w, n) && steps_run(before, plan, w, n) == (two, j);
    lemma_steps_agree(before, plan, v, w, n);
}

/// The node that a step is, when every step has its own place as its index.
pub open spec fn step_node(step: Step) -> Node {
    match step {
        Step::Var => var_node(),
        Step::Const(v) => const_node(v),
        Step::Prim(i, j) => prim_node(i as u32, j as u32),
    }
}

/// The nodes that the steps are, when every step has its own place as its index.
pub open spec fn step_nodes(plan: Seq<Step>) -> Seq<Node> {
    Seq::new(plan.len(), |k: int| step_node(plan[k]))
}

/// The places of a plan.
pub open spec fn places(n: nat) -> Seq<u32> {
    Seq::new(n, |k: int| k as u32)
}

/// No constant may be found within the tolerance of one that comes after it.
pub open spec fn steps_separated(plan: Seq<Step>) -> bool {
    forall|i: int, j: int|
        #![trigger plan[i], plan[j]]
        0 <= i < j < plan.len() ==> match (plan[i], plan[j]) {
            (Step::Const(c), Step::Const(v)) => !may_be_within(c, v, MACHINE_TOLERANCE),
            _ => true,
        }
}

/// Steps that are all different and whose constants are separated are held as they are by an
/// interner that held nothing before: every step has its own place as its index.
pub proof fn law_distinct_steps_are_kept(plan: Seq<Step>, nodes: Seq<Node>, ids: Seq<u32>)
    requires
        steps_ok(plan),
        plan.no_duplicates(),
        steps_separated(plan),
        plan.len() <= NIL,
        steps_interned(Seq::empty(), plan, nodes, ids),
    ensures
        nodes == step_nodes(plan),
        ids == places(plan.len()),
        forall|k: int| 0 <= k < plan.len() ==> #[trigger] tree(nodes, k) == step_tree(plan, k),
{
    let n = plan.len() as int;
    let verdicts = choose|verdicts: Seq<Seq<bool>>| #[trigger]
        steps_possible(Seq::empty(), plan, verdicts, n) && steps_run(
            Seq::empty(),
            plan,
            verdicts,
            n,
        ) == (nodes, ids);
    lemma_kept_prefix(plan, verdicts, n);
    assert(step_nodes(plan).take(n) =~= step_nodes(plan));
    assert forall|k: int| 0 <= k < plan.len() implies #[trigger] tree(nodes, k) == step_tree(
        plan,
        k,
    ) by {
        lemma_step_nodes(plan, k);
    }
}

/// The nodes of a plan stand for the same as its steps.
proof fn lemma_step_nodes(plan: Seq<Step>, k: int)
    requires
        steps_ok(plan),
        plan.len() <= NIL,
        0 <= k < plan.len(),
    ensures
        tree(step_nodes(plan), k) == step_tree(plan, k),
    decreases k,
{
    assert(step_ok(plan, k));
    if let Step::Prim(i, j) = plan[k] {
        lemma_step_nodes(plan, i as int);
        lemma_step_nodes(plan, j as int);
    }
}

proof fn lemma_kept_prefix(plan: Seq<Step>, verdicts: Seq<Seq<bool>>, k: int)
    requires
        steps_ok(plan),
        plan.no_duplicates(),
        steps_separated(plan),
        plan.len() <= NIL,
        steps_possible(Seq::empty(), plan, verdicts, plan.len() as int),
        0 <= k <= plan.len(),
    ensures
        steps_run(Seq::empty(), plan, verdicts, k) == (
            step_nodes(plan).take(k),
            places(k as nat),
        ),
    decreases k,
{
    let all = step_nodes(plan);
    if k == 0 {
        assert(all.take(0) =~= Seq::<Node>::empty());
        assert(places(0) =~= Seq::<u32>::empty());
    } else {
        lemma_kept_prefix(plan, verdicts, k - 1);
        let some = all.take(k - 1);
        let ids = places((k - 1) as nat);
        let step = plan[k - 1];
        assert(step_ok(plan, k - 1));
        assert(all.take(k) =~= some.push(step_node(step)));
        assert(places(k as nat) =~= ids.push((k - 1) as u32));
        assert forall|i: int| 0 <= i < some.len() implies #[trigger] some[i] == step_node(plan[i])
            && plan[i] != step && step_ok(plan, i) by {}
        match step {
            Step::Var => {
                if var_known(some) {
                    let i = choose|i: int| 0 <= i < some.len() && #[trigger] some[i] == var_node();
                    assert(plan[i] == step);
                }
            },
            Step::Const(v) => {
                let w = verdicts[k - 1];
                assert(verdicts_possible(some, v, w));
                lemma_first_hit(w);
                lemma_const_ids(some);
                if first_hit(w) < w.len() {
                    let i = const_ids(some)[first_hit(w)] as int;
                    assert(w[first_hit(w)]);
                    assert(may_replace(const_value(some, first_hit(w)), v));
                    assert(some[i] == step_node(plan[i]));
                    assert(plan[i] is Const);
                }
            },
            Step::Prim(a, b) => {
                assert(ids[a as int] == a && ids[b as int] == b);
                let (c, d) = (a as u32, b as u32);
                if prim_known(some, c, d) {
                    let i = choose|i: int| prim_at(some, c, d, i);
                    assert(some[i] == prim_node(c, d));
                    assert(some[i] == step_node(plan[i]));
                    assert(step_ok(plan, i));
                    assert(plan[i] == step);
                }
            },
        }
    }
}

/// The steps of the plan of an expression are all different in an arena without duplicates.
pub proof fn lemma_plan_distinct(nodes: Seq<Node>, root: u32)
    requires
        arena_ok(nodes),
        no_duplicates(nodes),
        root < nodes.len(),
    ensures
        plan_at(nodes, root).no_duplicates(),
{
    lemma_post_order(nodes, root);
    let order = post_order(nodes, root);
    let plan = plan_at(nodes, root);
    assert forall|i: int, j: int| 0 <= i < plan.len() && 0 <= j < plan.len() && i != j implies plan[i]
        != plan[j] by {
        if plan[i] == plan[j] {
            assert(order.contains(order[i]) && order.contains(order[j]));
            assert(reaches(nodes, root as int, order[i] as int));
            assert(reaches(nodes, root as int, order[j] as int));
            lemma_reaches_below(nodes, root as int, order[i] as int);
            lemma_reaches_below(nodes, root as int, order[j] as int);
            let (m, n) = (nodes[order[i] as int], nodes[order[j] as int]);
            assert(node_ok(nodes, order[i] as int));
            assert(node_ok(nodes, order[j] as int));
            if m.op == Op::Prim {
                assert(after_children(nodes, order, i));
                assert(after_children(nodes, order, j));
                assert(n.op == Op::Prim);
                lemma_child_place(order, i, m.a);
                lemma_child_place(order, i, m.b);
                lemma_child_place(order, j, n.a);
                lemma_child_place(order, j, n.b);
            }
            assert(m == n);
            assert(order[i] == order[j]);
        }
    }
}

/// What the nodes that can be reached mention, the expression mentions.
proof fn lemma_reached_mentions(nodes: Seq<Node>, root: int, id: int, v: Complex64)
    requires
        arena_ok(nodes),
        0 <= root < nodes.len(),
        reaches(nodes, root, id),
        mentions(tree(nodes, id), v),
    ensures
        mentions(tree(nodes, root), v),
    decreases root,
{
    if id != root {
        assert(node_ok(nodes, root));
        let n = nodes[root];
        assert(tree(nodes, root) == Expr::Prim(
            Box::new(tree(nodes, n.a as int)),
            Box::new(tree(nodes, n.b as int)),
        ));
        if reaches(nodes, n.a as int, id) {
            lemma_reached_mentions(nodes, n.a as int, id, v);
        } else {
            lemma_reached_mentions(nodes, n.b as int, id, v);
        }
    }
}

/// An expression of an arena without duplicates, whose constants are well separated, is held as it
/// is by an interner that held nothing before and in which its plan was interned: a node for each
/// step, and the root at the end.
pub proof fn law_separated_plan_is_kept(
    nodes: Seq<Node>,
    root: u32,
    after: Seq<Node>,
    ids: Seq<u32>,
)
    requires
        arena_ok(nodes),
        no_duplicates(nodes),
        root < nodes.len(),
        well_separated(tree(nodes, root as int), tree(nodes, root as int)),
        steps_interned(Seq::empty(), plan_at(nodes, root), after, ids),
    ensures
        after == step_nodes(plan_at(nodes, root)),
        ids == places(plan_at(nodes, root).len()),
        ids.len() > 0,
        ids.last() == after.len() - 1,
        tree(after, ids.last() as int) == tree(nodes, root as int),
{
    let plan = plan_at(nodes, root);
    let order = post_order(nodes, root);
    let e = tree(nodes, root as int);
    lemma_post_order(nodes, root);
    law_plan_denotes(nodes, root);
    lemma_plan_distinct(nodes, root);
    assert forall|i: int, j: int|
        #![trigger plan[i], plan[j]]
        0 <= i < j < plan.len() implies match (plan[i], plan[j]) {
        (Step::Const(c), Step::Const(v)) => !may_be_within(c, v, MACHINE_TOLERANCE),
        _ => true,
    } by {
        if let (Step::Const(c), Step::Const(v)) = (plan[i], plan[j]) {
            assert(order.contains(order[i]) && order.contains(order[j]));
            assert(reaches(nodes, root as int, order[i] as int));
            assert(reaches(nodes, root as int, order[j] as int));
            lemma_reaches_below(nodes, root as int, order[i] as int);
            lemma_reaches_below(nodes, root as int, order[j] as int);
            assert(mentions(tree(nodes, order[i] as int), c));
            assert(mentions(tree(nodes, order[j] as int), v));
            lemma_reached_mentions(nodes, root as int, order[i] as int, c);
            lemma_reached_mentions(nodes, root as int, order[j] as int, v);
            assert(plan[i] != plan[j]);
        }
    }
    law_distinct_steps_are_kept(plan, after, ids);
    assert(tree(after, plan.len() - 1) == step_tree(plan, plan.len() - 1));
}

/// The constants of an expression in an arena whose constants were found apart are well separated,
/// where the distance test says the same each time.
pub proof fn law_apart_is_well_separated(nodes: Seq<Node>, root: u32)
    requires
        arena_ok(nodes),
        consts_apart(nodes),
        distances_agree(),
        root < nodes.len(),
    ensures
        well_separated(tree(nodes, root as int), tree(nodes, root as int)),
{
    let e = tree(nodes, root as int);
    law_constants_apart_are_separated(nodes);
    assert forall|c: Complex64, v: Complex64| #[trigger]
        mentions(e, c) && #[trigger] mentions(e, v) && may_replace(c, v) implies c == v by {
        let i = lemma_mentioned_node(nodes, root as int, c);
        let j = lemma_mentioned_node(nodes, root as int, v);
        assert(nodes[i].op == Op::Const && nodes[j].op == Op::Const);
    }
}

/// A constant of an expression stands in a node.
proof fn lemma_mentioned_node(nodes: Seq<Node>, root: int, v: Complex64) -> (i: int)
    requires
        arena_ok(nodes),
        0 <= root < nodes.len(),
        mentions(tree(nodes, root), v),
    ensures
        0 <= i < nodes.len(),
        nodes[i].op == Op::Const,
        nodes[i].const_val == Some(v),
    decreases root,
{
    assert(node_ok(nodes, root));
    let n = nodes[root];
    if n.op == Op::Prim {
        assert(tree(nodes, root) == Expr::Prim(
            Box::new(tree(nodes, n.a as int)),
            Box::new(tree(nodes, n.b as int)),
        ));
        if mentions(tree(nodes, n.a as int), v) {
            lemma_mentioned_node(nodes, n.a as int, v)
        } else {
            lemma_mentioned_node(nodes, n.b as int, v)
        }
    } else {
        root
    }
}

/// `ids` are the indices of what the steps of a plan stand for.
pub open spec fn ids_stand(nodes: Seq<Node>, plan: Seq<Step>, ids: Seq<u32>) -> bool {
    forall|k: int|
        0 <= k < ids.len() ==> (#[trigger] ids[k]) < nodes.len() && stands_for(
            tree(nodes, ids[k] as int),
            step_tree(plan, k),
        )
}

/// The result of step `k`, if that is a primitive, is the primitive over the results of its
/// operands.
pub open spec fn linked_at(nodes: Seq<Node>, plan: Seq<Step>, ids: Seq<u32>, k: int) -> bool {
    plan[k] matches Step::Prim(i, j) ==> nodes[ids[k] as int] == prim_node(
        ids[i as int],
        ids[j as int],
    )
}

/// The results of primitives are primitives over the results of their operands.
pub open spec fn ids_linked(nodes: Seq<Node>, plan: Seq<Step>, ids: Seq<u32>) -> bool {
    forall|k: int| 0 <= k < ids.len() ==> #[trigger] linked_at(nodes, plan, ids, k)
}

proof fn lemma_ids_stand_extend(
    earlier: Seq<Node>,
    later: Seq<Node>,
    plan: Seq<Step>,
    ids: Seq<u32>,
)
    requires
        ids_stand(earlier, plan, ids),
        extends(earlier, later),
    ensures
        ids_stand(later, plan, ids),
{
    assert forall|k: int| 0 <= k < ids.len() implies (#[trigger] ids[k]) < later.len()
        && stands_for(tree(later, ids[k] as int), step_tree(plan, k)) by {
        lemma_tree_extends(earlier, later, ids[k] as int);
    }
}

/// What interning `k` steps leads to only depends on the verdicts on those.
proof fn lemma_steps_prefix(
    before: Seq<Node>,
    plan: Seq<Step>,
    verdicts: Seq<Seq<bool>>,
    longer: Seq<Seq<bool>>,
    k: int,
)
    requires
        0 <= k <= verdicts.len() <= longer.len(),
        forall|j: int| 0 <= j < verdicts.len() ==> #[trigger] longer[j] == verdicts[j],
    ensures
        steps_run(before, plan, longer, k) == steps_run(before, plan, verdicts, k),
    decreases k,
{
    if k > 0 {
        lemma_steps_prefix(before, plan, verdicts, longer, k - 1);
        assert(longer[k - 1] == verdicts[k - 1]);
    }
}

/// The steps that have been interned stand for what they are, and nothing that was there changes.
proof fn lemma_steps_stand(
    before: Seq<Node>,
    plan: Seq<Step>,
    verdicts: Seq<Seq<bool>>,
    k: int,
)
    requires
        arena_ok(before),
        steps_ok(plan),
        steps_possible(before, plan, verdicts, plan.len() as int),
        0 <= k <= plan.len(),
        steps_run(before, plan, verdicts, k).0.len() <= NIL,
    ensures
        ({
            let (nodes, ids) = steps_run(before, plan, verdicts, k);
            extends(before, nodes) && arena_ok(nodes) && ids.len() == k && ids_stand(
                nodes,
                plan,
                ids,
            )
        }),
    decreases k,
{
    if k > 0 {
        let (nodes, ids) = steps_run(before, plan, verdicts, k - 1);
        let (after, all) = steps_run(before, plan, verdicts, k);
        let step = plan[k - 1];
        assert(nodes.len() <= after.len()) by {
            if let Step::Const(v) = step {
                lemma_first_hit(verdicts[k - 1]);
            }
        }
        lemma_steps_stand(before, plan, verdicts, k - 1);
        assert(step_ok(plan, k - 1));
        let id = all[k - 1];
        match step {
            Step::Var => {
                lemma_arena_ok_push(nodes, var_node());
                assert(after[id as int] == var_node());
            },
            Step::Const(v) => {
                let w = verdicts[k - 1];
                assert(verdicts_possible(nodes, v, w));
                lemma_arena_ok_push(nodes, const_node(v));
                lemma_first_hit(w);
                lemma_const_ids(nodes);
                if first_hit(w) < w.len() {
                    assert(w[first_hit(w)]);
                    assert(may_replace(const_value(nodes, first_hit(w)), v));
                } else {
                    assert(after[id as int] == const_node(v));
                }
            },
            Step::Prim(a, b) => {
                let (i, j) = (ids[a as int], ids[b as int]);
                assert(i < nodes.len() && j < nodes.len());
                lemma_arena_ok_push(nodes, prim_node(i, j));
                assert(after[id as int] == prim_node(i, j)) by {
                    if prim_known(nodes, i, j) {
                        let m = choose|m: int| prim_at(nodes, i, j, m);
                        assert(nodes[m] == prim_node(i, j));
                    }
                }
                lemma_tree_extends(nodes, after, i as int);
                lemma_tree_extends(nodes, after, j as int);
                assert(node_ok(after, id as int));
                assert(tree(after, id as int) == Expr::Prim(
                    Box::new(tree(after, i as int)),
                    Box::new(tree(after, j as int)),
                ));
                assert(step_tree(plan, k - 1) == Expr::Prim(
                    Box::new(step_tree(plan, a as int)),
                    Box::new(step_tree(plan, b as int)),
                ));
            },
        }
        lemma_ids_stand_extend(nodes, after, plan, ids);
        assert forall|m: int| 0 <= m < all.len() implies (#[trigger] all[m]) < after.len()
            && stands_for(tree(after, all[m] as int), step_tree(plan, m)) by {
            if m < k - 1 {
                assert(all[m] == ids[m]);
            }
        }
    }
}

/// What interning the steps of a plan leads to: the nodes that were there stay as they are, and
/// each result stands for the expression of its step.
pub proof fn law_interned_steps_stand(
    before: Seq<Node>,
    plan: Seq<Step>,
    after: Seq<Node>,
    ids: Seq<u32>,
)
    requires
        arena_ok(before),
        steps_ok(plan),
        after.len() <= NIL,
        steps_interned(before, plan, after, ids),
    ensures
        extends(before, after),
        arena_ok(after),
        ids.len() == plan.len(),
        ids_stand(after, plan, ids),
{
    let n = plan.len() as int;
    let v = choose|v: Seq<Seq<bool>>| #[trigger]
        steps_possible(before, plan, v, n) && steps_run(before, plan, v, n) == (after, ids);
    lemma_steps_stand(before, plan, v, n);
}

/// Interns the steps of a plan, one after the other. The indices of their results are returned;
/// each stands for the expression of its step.
pub fn intern_steps(interner: &mut Interner, plan: &Vec<Step>) -> (ids: Vec<u32>)
    requires
        old(interner).wf(),
        steps_ok(plan@),
        old(interner).nodes().len() + plan@.len() <= NIL,
    ensures
        final(interner).wf(),
        extends(old(interner).nodes(), final(interner).nodes()),
        final(interner).nodes().len() <= old(interner).nodes().len() + plan@.len(),
        ids@.len() == plan@.len(),
        steps_interned(old(interner).nodes(), plan@, final(interner).nodes(), ids@),
        ids_stand(final(interner).nodes(), plan@, ids@),
        ids_linked(final(interner).nodes(), plan@, ids@),
        forall|n: u32|
            old(interner).nodes().len() <= n < final(interner).nodes().len()
                ==> #[trigger] ids@.contains(n),
        consts_apart(old(interner).nodes()) ==> consts_apart(final(interner).nodes()),
{
    let ghost before = interner.nodes();
    let ghost mut verdicts: Seq<Seq<bool>> = Seq::empty();
    let mut ids: Vec<u32> = Vec::new();
    let mut k: usize = 0;
    while k < plan.len()
        invariant
            interner.wf(),
            before == old(interner).nodes(),
            extends(before, interner.nodes()),
            interner.nodes().len() <= before.len() + k,
            before.len() + plan@.len() <= NIL,
            steps_ok(plan@),
            k <= plan@.len(),
            ids@.len() == k,
            ids_stand(interner.nodes(), plan@, ids@),
            ids_linked(interner.nodes(), plan@, ids@),
            forall|n: u32|
                before.len() <= n < interner.nodes().len() ==> #[trigger] ids@.contains(n),
            consts_apart(before) ==> consts_apart(interner.nodes()),
            steps_possible(before, plan@, verdicts, k as int),
            steps_run(before, plan@, verdicts, k as int) == (interner.nodes(), ids@),
        decreases plan@.len() - k,
    {
        let ghost nodes = interner.nodes();
        let ghost mut verdict: Seq<bool> = Seq::empty();
        assert(step_ok(plan@, k as int));
        let id = match plan[k] {
            Step::Var => interner.intern_var(),
            Step::Const(v) => {
                let id = interner.intern_const(v);
                proof {
                    verdict = choose|w: Seq<bool>|
                        verdicts_possible(nodes, v, w) && (interner.nodes(), id as int)
                            == #[trigger] const_step(nodes, v, w);
                }
                id
            },
            Step::Prim(i, j) => interner.intern_prim(ids[i], ids[j]),
        };
        let ghost earlier = ids@;
        ids.push(id);
        proof {
            let longer = verdicts.push(verdict);
            lemma_steps_prefix(before, plan@, verdicts, longer, k as int);
            assert forall|j: int|
                #![trigger longer[j]]
                0 <= j < k + 1 implies (plan@[j] matches Step::Const(v) ==> verdicts_possible(
                steps_run(before, plan@, longer, j).0,
                v,
                longer[j],
            )) by {
                lemma_steps_prefix(before, plan@, verdicts, longer, j);
                if j < k {
                    assert(longer[j] == verdicts[j]);
                }
            }
            verdicts = longer;
            lemma_ids_stand_extend(nodes, interner.nodes(), plan@, earlier);
            assert(stands_for(interner.expr(id), step_tree(plan@, k as int))) by {
                if let Step::Prim(i, j) = plan@[k as int] {
                    assert(earlier[i as int] < nodes.len());
                    assert(earlier[j as int] < nodes.len());
                    assert(step_tree(plan@, k as int) == Expr::Prim(
                        Box::new(step_tree(plan@, i as int)),
                        Box::new(step_tree(plan@, j as int)),
                    ));
                }
            }
            assert forall|m: int| 0 <= m < ids@.len() implies (#[trigger] ids@[m])
                < interner.nodes().len() && stands_for(
                tree(interner.nodes(), ids@[m] as int),
                step_tree(plan@, m),
            ) by {
                if m < k {
                    assert(ids@[m] == earlier[m]);
                }
            }
            assert forall|m: int| 0 <= m < ids@.len() implies #[trigger] linked_at(
                interner.nodes(),
                plan@,
                ids@,
                m,
            ) by {
                assert(step_ok(plan@, m));
                if m < k {
                    assert(linked_at(nodes, plan@, earlier, m));
                    assert(ids@[m] == earlier[m]);
                    assert(earlier[m] < nodes.len());
                }
            }
            assert forall|n: u32| before.len() <= n < interner.nodes().len() implies #[trigger]
                ids@.contains(n) by {
                if n < nodes.len() {
                    assert(earlier.contains(n));
                    let m = choose|m: int| 0 <= m < earlier.len() && earlier[m] == n;
                    assert(ids@[m] == n);
                } else {
                    assert(ids@[k as int] == n);
                }
            }
        }
        k += 1;
    }
    ids
}

} // verus!
