//! Collapsing of subexpressions that have the same fingerprint.
//!
//! A pass rebuilds an expression from the leaves up. Nodes with the same fingerprint form a
//! class, and every node is redirected to the cheapest member of its class that has been met.
//! A cheaper member may be met after a dearer one, and a redirection may give rise to new
//! classes higher up, so passes follow one another, each with the classes of the one before,
//! until nothing changes.

use rustc_hash::FxHashMap;
use vstd::prelude::*;

use crate::arena::{
    arena_ok, consts_apart, extends, lemma_tree_extends, lemma_trees_extend, no_duplicates, node_ok,
    tree, Interner, Node, Op, NIL,
};
use crate::complex::Complex64;
use crate::expr::{ops, Expr};
use crate::fingerprint::{evaluator, fingerprint, may_hash};
use crate::fx::{fx_get, fx_insert, fx_new};
use crate::graph::{
    after_children, children_first, lemma_post_order, lemma_reaches_below, lemma_reaches_children,
    post_order, reaches, walk,
};
use crate::plan::{
    law_plan_denotes, lemma_child_place, lemma_matched_places, lemma_orders_match, matched, plan_at,
    plan_ok, step_tree, Step,
};
use crate::stochastic::op_count;

verus! {

/// `fp` is a fingerprint that `eval` may lead to for `e`.
pub open spec fn may_be_fingerprint<E: Fn(&Vec<Step>, Complex64) -> Complex64>(
    eval: E,
    e: Expr,
    fp: u64,
) -> bool {
    exists|plan: Seq<Step>| #[trigger]
        may_hash(eval, plan, fp) && plan_ok(plan) && step_tree(plan, plan.len() - 1) == e
}

/// Node `id` over what its children were redirected to.
pub open spec fn rebuilt(nodes: Seq<Node>, images: Map<u32, Expr>, id: u32) -> Expr {
    if nodes[id as int].op == Op::Prim {
        Expr::Prim(
            Box::new(images[nodes[id as int].a]),
            Box::new(images[nodes[id as int].b]),
        )
    } else {
        tree(nodes, id as int)
    }
}

/// What `t`, which has the fingerprint `fp`, is redirected to: the representative of its class,
/// unless `t` is cheaper or there is no such class.
pub open spec fn settled(classes: Map<u64, Expr>, t: Expr, fp: u64) -> Expr {
    if classes.contains_key(fp) && ops(classes[fp]) <= ops(t) {
        classes[fp]
    } else {
        t
    }
}

/// What the first `k` nodes of `order` are redirected to, and the representatives of the
/// classes after that. `classes` are those before, and `fps` the fingerprints of the rebuilt
/// nodes, in order.
pub open spec fn pass_state(
    nodes: Seq<Node>,
    classes: Map<u64, Expr>,
    order: Seq<u32>,
    fps: Seq<u64>,
    k: int,
) -> (Map<u32, Expr>, Map<u64, Expr>)
    decreases k,
{
    if k <= 0 {
        (Map::empty(), classes)
    } else {
        let (images, reps) = pass_state(nodes, classes, order, fps, k - 1);
        let image = settled(reps, rebuilt(nodes, images, order[k - 1]), fps[k - 1]);
        (images.insert(order[k - 1], image), reps.insert(fps[k - 1], image))
    }
}

/// The rebuilt node at place `k` of a pass.
pub open spec fn rebuilt_at(
    nodes: Seq<Node>,
    classes: Map<u64, Expr>,
    order: Seq<u32>,
    fps: Seq<u64>,
    k: int,
) -> Expr {
    rebuilt(nodes, pass_state(nodes, classes, order, fps, k).0, order[k])
}

/// `fps` are fingerprints that `eval` may lead to for the rebuilt nodes of a pass.
pub open spec fn pass_possible<E: Fn(&Vec<Step>, Complex64) -> Complex64>(
    eval: E,
    nodes: Seq<Node>,
    classes: Map<u64, Expr>,
    order: Seq<u32>,
    fps: Seq<u64>,
) -> bool {
    fps.len() == order.len() && forall|k: int|
        0 <= k < order.len() ==> may_be_fingerprint(
            eval,
            #[trigger] rebuilt_at(nodes, classes, order, fps, k),
            fps[k],
        )
}

/// A pass over the expression rooted at `root` may redirect it to `e`, with the representatives
/// of the classes going from `classes` to `reps`.
pub open spec fn may_pass_at<E: Fn(&Vec<Step>, Complex64) -> Complex64>(
    eval: E,
    nodes: Seq<Node>,
    root: u32,
    classes: Map<u64, Expr>,
    e: Expr,
    reps: Map<u64, Expr>,
    fps: Seq<u64>,
) -> bool {
    let order = post_order(nodes, root);
    let after = pass_state(nodes, classes, order, fps, order.len() as int);
    pass_possible(eval, nodes, classes, order, fps) && after.0[root] == e && after.1 == reps
}

/// What a collapse has come to: the expression, and the representatives of the classes.
pub type Progress = (Expr, Map<u64, Expr>);

/// A pass may lead from `s` to `t`. The expression is only replaced by a cheaper one.
pub open spec fn may_follow<E: Fn(&Vec<Step>, Complex64) -> Complex64>(
    eval: E,
    s: Progress,
    t: Progress,
) -> bool {
    exists|nodes: Seq<Node>, root: u32, e: Expr, fps: Seq<u64>|
        arena_ok(nodes) && no_duplicates(nodes) && root < nodes.len() && tree(nodes, root as int) == s.0
                && #[trigger]
            may_pass_at(eval, nodes, root, s.1, e, t.1, fps) && t.0 == (if ops(e) < ops(s.0) {
            e
        } else {
            s.0
        })
}

/// `states` is a sequence of passes from `start`, with no classes known at first.
pub open spec fn is_run<E: Fn(&Vec<Step>, Complex64) -> Complex64>(
    eval: E,
    start: Expr,
    states: Seq<Progress>,
) -> bool {
    &&& states.len() > 0
    &&& states[0] == (start, Map::<u64, Expr>::empty())
    &&& forall|i: int|
        0 <= i < states.len() - 1 ==> may_follow(eval, #[trigger] states[i], states[i + 1])
}

/// There is no room for the nodes that another pass may add.
pub open spec fn full(nodes: Seq<Node>, root: u32) -> bool {
    nodes.len() + post_order(nodes, root).len() > NIL
}

/// `states` is a run that went on until nothing changed, or there was no room, or `max_iters`
/// passes were made.
pub open spec fn is_collapse<E: Fn(&Vec<Step>, Complex64) -> Complex64>(
    eval: E,
    start: Expr,
    states: Seq<Progress>,
    max_iters: usize,
    nodes: Seq<Node>,
    root: u32,
) -> bool {
    &&& is_run(eval, start, states)
    &&& states.len() <= max_iters + 1
    &&& states.len() == max_iters + 1 || may_follow(eval, states.last(), states.last()) || full(
        nodes,
        root,
    )
}

/// What holds of the order in which a pass goes.
spec fn order_ok(nodes: Seq<Node>, order: Seq<u32>) -> bool {
    &&& arena_ok(nodes)
    &&& order.no_duplicates()
    &&& children_first(nodes, order)
    &&& forall|k: int| 0 <= k < order.len() ==> (#[trigger] order[k]) < nodes.len()
}

proof fn lemma_order_ok(nodes: Seq<Node>, root: u32)
    requires
        arena_ok(nodes),
        root < nodes.len(),
    ensures
        order_ok(nodes, post_order(nodes, root)),
{
    lemma_post_order(nodes, root);
    let order = post_order(nodes, root);
    assert forall|k: int| 0 <= k < order.len() implies (#[trigger] order[k]) < nodes.len() by {
        assert(order.contains(order[k]));
        assert(reaches(nodes, root as int, order[k] as int));
        lemma_reaches_below(nodes, root as int, order[k] as int);
    }
}

/// After `k` places, the nodes at those places have been redirected, and no others; and none to
/// something dearer.
proof fn lemma_images(
    nodes: Seq<Node>,
    classes: Map<u64, Expr>,
    order: Seq<u32>,
    fps: Seq<u64>,
    k: int,
)
    requires
        order_ok(nodes, order),
        0 <= k <= order.len(),
    ensures
        ({
            let images = pass_state(nodes, classes, order, fps, k).0;
            &&& forall|j: int| 0 <= j < k ==> images.contains_key(#[trigger] order[j])
            &&& forall|id: u32| #[trigger]
                images.contains_key(id) ==> order.take(k).contains(id) && ops(images[id]) <= ops(
                    tree(nodes, id as int),
                )
        }),
    decreases k, 0int,
{
    if k > 0 {
        lemma_images(nodes, classes, order, fps, k - 1);
        lemma_rebuilt_cost(nodes, classes, order, fps, k - 1);
        let (before, reps) = pass_state(nodes, classes, order, fps, k - 1);
        let after = pass_state(nodes, classes, order, fps, k).0;
        assert forall|id: u32| #[trigger] after.contains_key(id) implies order.take(k).contains(id)
            && ops(after[id]) <= ops(tree(nodes, id as int)) by {
            if id == order[k - 1] {
                assert(order.take(k)[k - 1] == id);
            } else {
                assert(before.contains_key(id));
                let sooner = order.take(k - 1);
                let j = choose|j: int| 0 <= j < sooner.len() && sooner[j] == id;
                assert(order.take(k)[j] == id);
            }
        }
    }
}

/// The children of the node at place `k` have been redirected before, and the rebuilt node is
/// not dearer than the node.
proof fn lemma_rebuilt_cost(
    nodes: Seq<Node>,
    classes: Map<u64, Expr>,
    order: Seq<u32>,
    fps: Seq<u64>,
    k: int,
)
    requires
        order_ok(nodes, order),
        0 <= k < order.len(),
    ensures
        ({
            let images = pass_state(nodes, classes, order, fps, k).0;
            let n = nodes[order[k] as int];
            &&& n.op == Op::Prim ==> images.contains_key(n.a) && images.contains_key(n.b)
            &&& ops(rebuilt(nodes, images, order[k])) <= ops(tree(nodes, order[k] as int))
        }),
    decreases k, 1int,
{
    let images = pass_state(nodes, classes, order, fps, k).0;
    let id = order[k];
    let n = nodes[id as int];
    lemma_images(nodes, classes, order, fps, k);
    assert(after_children(nodes, order, k));
    assert(node_ok(nodes, id as int));
    if n.op == Op::Prim {
        lemma_earlier(order, k, n.a);
        lemma_earlier(order, k, n.b);
        assert(tree(nodes, id as int) == Expr::Prim(
            Box::new(tree(nodes, n.a as int)),
            Box::new(tree(nodes, n.b as int)),
        ));
    }
}

/// What is among the first `k` of `order` stands at a place before `k`.
proof fn lemma_earlier(order: Seq<u32>, k: int, id: u32) -> (j: int)
    requires
        0 <= k <= order.len(),
        order.take(k).contains(id),
    ensures
        0 <= j < k,
        order[j] == id,
{
    let before = order.take(k);
    let j = choose|j: int| 0 <= j < before.len() && before[j] == id;
    assert(order[j] == id);
    j
}

/// A part of an expression is not dearer than the whole.
proof fn lemma_part_ops(nodes: Seq<Node>, root: int, id: int)
    requires
        arena_ok(nodes),
        0 <= root < nodes.len(),
        reaches(nodes, root, id),
    ensures
        ops(tree(nodes, id)) <= ops(tree(nodes, root)),
    decreases root,
{
    if id != root {
        assert(node_ok(nodes, root));
        let n = nodes[root];
        assert(tree(nodes, root) == Expr::Prim(
            Box::new(tree(nodes, n.a as int)),
            Box::new(tree(nodes, n.b as int)),
        ));
        if reaches(nodes, n.a as int, id) {
            lemma_part_ops(nodes, n.a as int, id);
        } else {
            lemma_part_ops(nodes, n.b as int, id);
        }
    }
}

/// The representatives that a table of classes stands for.
pub open spec fn representatives(nodes: Seq<Node>, table: Map<u64, (u32, u64)>) -> Map<u64, Expr> {
    Map::new(|fp: u64| table.contains_key(fp), |fp: u64| tree(nodes, table[fp].0 as int))
}

/// A table of classes holds nodes, each with its cost.
pub open spec fn table_ok(nodes: Seq<Node>, table: Map<u64, (u32, u64)>) -> bool {
    forall|fp: u64| #[trigger]
        table.contains_key(fp) ==> table[fp].0 < nodes.len() && table[fp].1 == ops(
            tree(nodes, table[fp].0 as int),
        )
}

/// A table of classes stands for the same when nodes are added.
proof fn lemma_table_extends(earlier: Seq<Node>, later: Seq<Node>, table: Map<u64, (u32, u64)>)
    requires
        extends(earlier, later),
        table_ok(earlier, table),
    ensures
        table_ok(later, table),
        representatives(later, table) == representatives(earlier, table),
{
    lemma_trees_extend(earlier, later);
    assert forall|fp: u64| #[trigger] table.contains_key(fp) implies table[fp].0 < later.len()
        && table[fp].1 == ops(tree(later, table[fp].0 as int)) by {
        assert(tree(later, table[fp].0 as int) == tree(earlier, table[fp].0 as int));
    }
    assert(representatives(later, table) =~= representatives(earlier, table));
}

/// What the nodes that have been redirected were redirected to.
spec fn images_hold(nodes: Seq<Node>, memo: Map<u32, u32>, images: Map<u32, Expr>) -> bool {
    forall|id: u32| #[trigger]
        images.contains_key(id) ==> memo.contains_key(id) && memo[id] < nodes.len() && tree(
            nodes,
            memo[id] as int,
        ) == images[id]
}

proof fn lemma_images_extend(
    earlier: Seq<Node>,
    later: Seq<Node>,
    memo: Map<u32, u32>,
    images: Map<u32, Expr>,
)
    requires
        extends(earlier, later),
        images_hold(earlier, memo, images),
    ensures
        images_hold(later, memo, images),
{
    lemma_trees_extend(earlier, later);
    assert forall|id: u32| #[trigger] images.contains_key(id) implies memo.contains_key(id)
        && memo[id] < later.len() && tree(later, memo[id] as int) == images[id] by {
        assert(tree(later, memo[id] as int) == tree(earlier, memo[id] as int));
    }
}

/// Finds what `node`, which has the fingerprint `fp`, is redirected to, and whether its class
/// is new or has a new representative.
fn settle(
    interner: &Interner,
    node: u32,
    fp: u64,
    table: &mut FxHashMap<u64, (u32, u64)>,
) -> (r: (u32, bool))
    requires
        interner.wf(),
        node < interner.nodes().len(),
        ops(interner.expr(node)) <= u64::MAX,
        table_ok(interner.nodes(), old(table)@),
    ensures
        table_ok(interner.nodes(), final(table)@),
        r.0 < interner.nodes().len(),
        ({
            let reps = representatives(interner.nodes(), old(table)@);
            let image = settled(reps, interner.expr(node), fp);
            interner.expr(r.0) == image && representatives(interner.nodes(), final(table)@)
                == reps.insert(fp, image)
        }),
        !r.1 ==> final(table)@ == old(table)@,
{
    let ghost nodes = interner.nodes();
    let ghost before = table@;
    let cost = op_count(interner, node);
    let kept = match fx_get(table, &fp) {
        Some(entry) => if entry.1 <= cost {
            Some(entry.0)
        } else {
            None
        },
        None => None,
    };
    match kept {
        Some(rep) => {
            assert(representatives(nodes, before) =~= representatives(nodes, before).insert(
                fp,
                interner.expr(rep),
            ));
            (rep, false)
        },
        None => {
            fx_insert(table, fp, (node, cost));
            assert(representatives(nodes, table@) =~= representatives(nodes, before).insert(
                fp,
                interner.expr(node),
            ));
            (node, true)
        },
    }
}

/// One pass over the expression rooted at `root`: what it is redirected to, and whether the
/// table of classes has changed.
fn single_pass<E: Fn(&Vec<Step>, Complex64) -> Complex64>(
    interner: &mut Interner,
    root: u32,
    table: &mut FxHashMap<u64, (u32, u64)>,
    eval: &E,
) -> (r: (u32, bool))
    requires
        old(interner).wf(),
        root < old(interner).nodes().len(),
        ops(old(interner).expr(root)) <= u64::MAX,
        !full(old(interner).nodes(), root),
        table_ok(old(interner).nodes(), old(table)@),
        evaluator(*eval),
    ensures
        final(interner).wf(),
        extends(old(interner).nodes(), final(interner).nodes()),
        table_ok(final(interner).nodes(), final(table)@),
        r.0 < final(interner).nodes().len(),
        exists|fps: Seq<u64>| #[trigger]
            may_pass_at(
                *eval,
                old(interner).nodes(),
                root,
                representatives(old(interner).nodes(), old(table)@),
                final(interner).expr(r.0),
                representatives(final(interner).nodes(), final(table)@),
                fps,
            ),
        !r.1 ==> final(table)@ == old(table)@,
        ops(final(interner).expr(r.0)) <= ops(old(interner).expr(root)),
        consts_apart(old(interner).nodes()) ==> consts_apart(final(interner).nodes()),
{
    let ghost nodes = interner.nodes();
    let ghost classes = representatives(nodes, table@);
    let ghost mut fps: Seq<u64> = Seq::empty();
    proof {
        interner.lemma_wf();
        lemma_order_ok(nodes, root);
        lemma_post_order(nodes, root);
    }
    let order = walk(interner, root).0;
    let mut memo: FxHashMap<u32, u32> = fx_new();
    let mut changed = false;
    let mut k: usize = 0;
    while k < order.len()
        invariant
            interner.wf(),
            nodes == old(interner).nodes(),
            arena_ok(nodes),
            root < nodes.len(),
            ops(tree(nodes, root as int)) <= u64::MAX,
            classes == representatives(nodes, old(table)@),
            extends(nodes, interner.nodes()),
            interner.nodes().len() <= nodes.len() + k,
            nodes.len() + order@.len() <= NIL,
            order@ == post_order(nodes, root),
            order_ok(nodes, order@),
            forall|x: u32| order@.contains(x) ==> #[trigger] reaches(nodes, root as int, x as int),
            evaluator(*eval),
            k <= order@.len(),
            fps.len() == k,
            table_ok(interner.nodes(), table@),
            representatives(interner.nodes(), table@) == pass_state(
                nodes,
                classes,
                order@,
                fps,
                k as int,
            ).1,
            images_hold(
                interner.nodes(),
                memo@,
                pass_state(nodes, classes, order@, fps, k as int).0,
            ),
            forall|j: int|
                0 <= j < k ==> may_be_fingerprint(
                    *eval,
                    #[trigger] rebuilt_at(nodes, classes, order@, fps, j),
                    fps[j],
                ),
            !changed ==> table@ == old(table)@,
            consts_apart(nodes) ==> consts_apart(interner.nodes()),
        decreases order@.len() - k,
    {
        let id = order[k];
        let ghost so_far = interner.nodes();
        let ghost images = pass_state(nodes, classes, order@, fps, k as int).0;
        proof {
            interner.lemma_wf();
            assert(order@.contains(id));
            assert(reaches(nodes, root as int, id as int));
            lemma_part_ops(nodes, root as int, id as int);
            lemma_rebuilt_cost(nodes, classes, order@, fps, k as int);
            lemma_tree_extends(nodes, so_far, id as int);
            assert(so_far[id as int] == nodes[id as int]);
        }
        let n = *interner.node(id);
        let rebuilt_id = if n.op == Op::Prim {
            match (fx_get(&memo, &n.a), fx_get(&memo, &n.b)) {
                (Some(a), Some(b)) => interner.intern_prim(*a, *b),
                _ => id,
            }
        } else {
            id
        };
        proof {
            interner.lemma_wf();
            assert(interner.expr(rebuilt_id) == rebuilt(nodes, images, id));
            lemma_table_extends(so_far, interner.nodes(), table@);
            lemma_images_extend(so_far, interner.nodes(), memo@, images);
            law_plan_denotes(interner.nodes(), rebuilt_id);
        }
        let fp = fingerprint(interner, rebuilt_id, eval);
        let (image, new) = settle(interner, rebuilt_id, fp, table);
        if new {
            changed = true;
        }
        fx_insert(&mut memo, id, image);
        proof {
            let longer = fps.push(fp);
            lemma_state_prefix(nodes, classes, order@, fps, longer, k as int);
            assert(rebuilt_at(nodes, classes, order@, longer, k as int) == interner.expr(
                rebuilt_id,
            ));
            assert(may_be_fingerprint(*eval, interner.expr(rebuilt_id), fp)) by {
                assert(may_hash(*eval, plan_at(interner.nodes(), rebuilt_id), fp));
            }
            assert forall|j: int| 0 <= j < k + 1 implies may_be_fingerprint(
                *eval,
                #[trigger] rebuilt_at(nodes, classes, order@, longer, j),
                longer[j],
            ) by {
                if j < k {
                    lemma_state_prefix(nodes, classes, order@, fps, longer, j);
                    assert(may_be_fingerprint(
                        *eval,
                        rebuilt_at(nodes, classes, order@, fps, j),
                        fps[j],
                    ));
                }
            }
            fps = longer;
        }
        k += 1;
    }
    proof {
        assert(order@[order@.len() - 1] == root);
        lemma_images(nodes, classes, order@, fps, order@.len() as int);
        assert(pass_possible(*eval, nodes, classes, order@, fps));
    }
    match fx_get(&memo, &root) {
        Some(image) => {
            assert(may_pass_at(
                *eval,
                nodes,
                root,
                classes,
                interner.expr(*image),
                representatives(interner.nodes(), table@),
                fps,
            ));
            (*image, changed)
        },
        None => (root, changed),
    }
}

/// What a pass comes to after `k` places only depends on the fingerprints of those.
proof fn lemma_state_prefix(
    nodes: Seq<Node>,
    classes: Map<u64, Expr>,
    order: Seq<u32>,
    fps: Seq<u64>,
    longer: Seq<u64>,
    k: int,
)
    requires
        0 <= k <= fps.len() <= longer.len(),
        forall|j: int| 0 <= j < fps.len() ==> #[trigger] longer[j] == fps[j],
    ensures
        pass_state(nodes, classes, order, longer, k) == pass_state(nodes, classes, order, fps, k),
    decreases k,
{
    if k > 0 {
        lemma_state_prefix(nodes, classes, order, fps, longer, k - 1);
        assert(longer[k - 1] == fps[k - 1]);
    }
}

/// Redirects the subexpressions of the expression rooted at `root` to the cheapest ones with the
/// same fingerprint, pass after pass, until nothing changes, or there is no room for the nodes
/// of another pass, or `max_iters` passes have been made. The index of the new root is
/// returned; it is `root` itself when nothing became cheaper.
pub fn collapse_equivalent_subtrees<E: Fn(&Vec<Step>, Complex64) -> Complex64>(
    interner: &mut Interner,
    root: u32,
    max_iters: usize,
    eval: &E,
) -> (r: u32)
    requires
        old(interner).wf(),
        root < old(interner).nodes().len(),
        ops(old(interner).expr(root)) <= u64::MAX,
        evaluator(*eval),
    ensures
        final(interner).wf(),
        extends(old(interner).nodes(), final(interner).nodes()),
        r < final(interner).nodes().len(),
        exists|states: Seq<Progress>| #[trigger]
            is_collapse(
                *eval,
                old(interner).expr(root),
                states,
                max_iters,
                final(interner).nodes(),
                r,
            ) && final(interner).expr(r) == states.last().0,
        ops(final(interner).expr(r)) <= ops(old(interner).expr(root)),
        r == root || ops(final(interner).expr(r)) < ops(old(interner).expr(root)),
        consts_apart(old(interner).nodes()) ==> consts_apart(final(interner).nodes()),
{
    let ghost start = interner.expr(root);
    let mut table: FxHashMap<u64, (u32, u64)> = fx_new();
    let mut current = root;
    let mut best_cost = op_count(interner, root);
    let ghost mut states: Seq<Progress> = seq![(start, Map::<u64, Expr>::empty())];
    assert(representatives(interner.nodes(), table@) =~= Map::<u64, Expr>::empty());
    let mut done: usize = 0;
    while done < max_iters
        invariant
            interner.wf(),
            extends(old(interner).nodes(), interner.nodes()),
            current < interner.nodes().len(),
            start == old(interner).expr(root),
            best_cost == ops(interner.expr(current)),
            best_cost <= ops(start),
            current == root || best_cost < ops(start),
            root < old(interner).nodes().len(),
            done <= max_iters,
            table_ok(interner.nodes(), table@),
            is_run(*eval, start, states),
            states.len() == done + 1,
            states.last() == (
                interner.expr(current),
                representatives(interner.nodes(), table@),
            ),
            consts_apart(old(interner).nodes()) ==> consts_apart(interner.nodes()),
            evaluator(*eval),
        decreases max_iters - done,
    {
        let parts = walk(interner, current).0;
        if parts.len() > NIL as usize || interner.len() > NIL as usize - parts.len() {
            assert(full(interner.nodes(), current));
            assert(is_collapse(*eval, start, states, max_iters, interner.nodes(), current));
            return current;
        }
        let ghost before = interner.nodes();
        let ghost held = table@;
        proof {
            interner.lemma_wf();
        }
        let (next, changed) = single_pass(interner, current, &mut table, eval);
        proof {
            interner.lemma_wf();
            lemma_tree_extends(before, interner.nodes(), current as int);
        }
        let next_cost = op_count(interner, next);
        let cheaper = next_cost < best_cost;
        let ghost last = states.last();
        proof {
            let reached = if cheaper {
                interner.expr(next)
            } else {
                interner.expr(current)
            };
            let now = (reached, representatives(interner.nodes(), table@));
            let fps = choose|fps: Seq<u64>| #[trigger]
                may_pass_at(
                    *eval,
                    before,
                    current,
                    representatives(before, held),
                    interner.expr(next),
                    representatives(interner.nodes(), table@),
                    fps,
                );
            assert(may_pass_at(*eval, before, current, last.1, interner.expr(next), now.1, fps));
            assert(may_follow(*eval, last, now));
            if !cheaper && !changed {
                lemma_table_extends(before, interner.nodes(), held);
                assert(now == last);
            }
            let longer = states.push(now);
            assert forall|i: int| 0 <= i < longer.len() - 1 implies may_follow(
                *eval,
                #[trigger] longer[i],
                longer[i + 1],
            ) by {
                if i < states.len() - 1 {
                    assert(may_follow(*eval, states[i], states[i + 1]));
                }
            }
            states = longer;
        }
        if cheaper {
            current = next;
            best_cost = next_cost;
        } else if !changed {
            assert(is_collapse(*eval, start, states, max_iters, interner.nodes(), current));
            return current;
        }
        done += 1;
    }
    assert(is_collapse(*eval, start, states, max_iters, interner.nodes(), current));
    current
}

/// The value of the primitive is determined by those of its operands.
pub open spec fn compositional<V>(val: spec_fn(Expr) -> V, combine: spec_fn(V, V) -> V) -> bool {
    forall|a: Expr, b: Expr| #[trigger]
        val(Expr::Prim(Box::new(a), Box::new(b))) == combine(val(a), val(b))
}

/// Expressions that may have the same fingerprint have the same value.
pub open spec fn faithful<E: Fn(&Vec<Step>, Complex64) -> Complex64, V>(
    eval: E,
    val: spec_fn(Expr) -> V,
) -> bool {
    forall|a: Expr, b: Expr, fp: u64| #[trigger]
        may_be_fingerprint(eval, a, fp) && #[trigger] may_be_fingerprint(eval, b, fp) ==> val(a)
            == val(b)
}

/// The representative of a class has the value of its members.
spec fn classes_valued<E: Fn(&Vec<Step>, Complex64) -> Complex64, V>(
    eval: E,
    val: spec_fn(Expr) -> V,
    classes: Map<u64, Expr>,
) -> bool {
    forall|fp: u64, e: Expr|
        classes.contains_key(fp) && #[trigger] may_be_fingerprint(eval, e, fp) ==> val(e) == val(
            classes[fp],
        )
}

/// Nothing is redirected to something with another value.
proof fn lemma_pass_keeps_value<E: Fn(&Vec<Step>, Complex64) -> Complex64, V>(
    eval: E,
    nodes: Seq<Node>,
    classes: Map<u64, Expr>,
    order: Seq<u32>,
    fps: Seq<u64>,
    val: spec_fn(Expr) -> V,
    combine: spec_fn(V, V) -> V,
    k: int,
)
    requires
        order_ok(nodes, order),
        pass_possible(eval, nodes, classes, order, fps),
        compositional(val, combine),
        faithful(eval, val),
        classes_valued(eval, val, classes),
        0 <= k <= order.len(),
    ensures
        ({
            let (images, reps) = pass_state(nodes, classes, order, fps, k);
            &&& classes_valued(eval, val, reps)
            &&& forall|id: u32| #[trigger]
                images.contains_key(id) ==> val(images[id]) == val(tree(nodes, id as int))
        }),
    decreases k,
{
    if k > 0 {
        lemma_pass_keeps_value(eval, nodes, classes, order, fps, val, combine, k - 1);
        lemma_rebuilt_cost(nodes, classes, order, fps, k - 1);
        let id = order[k - 1];
        let fp = fps[k - 1];
        let n = nodes[id as int];
        let (images, reps) = pass_state(nodes, classes, order, fps, k - 1);
        let t = rebuilt_at(nodes, classes, order, fps, k - 1);
        assert(may_be_fingerprint(eval, t, fp));
        assert(node_ok(nodes, id as int));
        if n.op == Op::Prim {
            assert(tree(nodes, id as int) == Expr::Prim(
                Box::new(tree(nodes, n.a as int)),
                Box::new(tree(nodes, n.b as int)),
            ));
        }
        assert(val(t) == val(tree(nodes, id as int)));
    }
}

/// Collapsing keeps the value of an expression, whatever the values are, as long as the value of
/// the primitive is determined by those of its operands and expressions that may have the same
/// fingerprint have the same value.
pub proof fn law_collapse_keeps_value<E: Fn(&Vec<Step>, Complex64) -> Complex64, V>(
    eval: E,
    start: Expr,
    states: Seq<Progress>,
    val: spec_fn(Expr) -> V,
    combine: spec_fn(V, V) -> V,
)
    requires
        is_run(eval, start, states),
        compositional(val, combine),
        faithful(eval, val),
    ensures
        val(states.last().0) == val(start),
{
    lemma_run_keeps_value(eval, start, states, val, combine, states.len() - 1);
}

proof fn lemma_run_keeps_value<E: Fn(&Vec<Step>, Complex64) -> Complex64, V>(
    eval: E,
    start: Expr,
    states: Seq<Progress>,
    val: spec_fn(Expr) -> V,
    combine: spec_fn(V, V) -> V,
    i: int,
)
    requires
        is_run(eval, start, states),
        compositional(val, combine),
        faithful(eval, val),
        0 <= i < states.len(),
    ensures
        val(states[i].0) == val(start),
        classes_valued(eval, val, states[i].1),
    decreases i,
{
    if i > 0 {
        lemma_run_keeps_value(eval, start, states, val, combine, i - 1);
        let (s, t) = (states[i - 1], states[i]);
        assert(may_follow(eval, s, states[i - 1 + 1]));
        let (nodes, root, e, fps) = choose|nodes: Seq<Node>, root: u32, e: Expr, fps: Seq<u64>|
            arena_ok(nodes) && no_duplicates(nodes) && root < nodes.len() && tree(nodes, root as int) == s.0
                && #[trigger]
                may_pass_at(eval, nodes, root, s.1, e, t.1, fps) && t.0 == (if ops(e) < ops(s.0) {
                e
            } else {
                s.0
            });
        let order = post_order(nodes, root);
        lemma_order_ok(nodes, root);
        lemma_post_order(nodes, root);
        let n = order.len() as int;
        lemma_pass_keeps_value(eval, nodes, s.1, order, fps, val, combine, n);
        lemma_images(nodes, s.1, order, fps, n);
        assert(order[n - 1] == root);
    }
}

/// Collapsing never makes an expression dearer.
pub proof fn law_collapse_is_not_dearer<E: Fn(&Vec<Step>, Complex64) -> Complex64>(
    eval: E,
    start: Expr,
    states: Seq<Progress>,
)
    requires
        is_run(eval, start, states),
    ensures
        ops(states.last().0) <= ops(start),
{
    lemma_run_cost(eval, start, states, states.len() - 1);
}

proof fn lemma_run_cost<E: Fn(&Vec<Step>, Complex64) -> Complex64>(
    eval: E,
    start: Expr,
    states: Seq<Progress>,
    i: int,
)
    requires
        is_run(eval, start, states),
        0 <= i < states.len(),
    ensures
        ops(states[i].0) <= ops(start),
    decreases i,
{
    if i > 0 {
        lemma_run_cost(eval, start, states, i - 1);
        assert(may_follow(eval, states[i - 1], states[i - 1 + 1]));
    }
}

/// An expression has one fingerprint at most.
pub open spec fn determined<E: Fn(&Vec<Step>, Complex64) -> Complex64>(
    eval: E,
    print: spec_fn(Expr) -> u64,
) -> bool {
    forall|e: Expr, fp: u64| #[trigger] may_be_fingerprint(eval, e, fp) ==> fp == print(e)
}

/// The fingerprint of the primitive is determined by those of its operands.
pub open spec fn congruent(print: spec_fn(Expr) -> u64) -> bool {
    forall|a: Expr, b: Expr, c: Expr, d: Expr|
        print(a) == print(c) && print(b) == print(d) ==> #[trigger] print(
            Expr::Prim(Box::new(a), Box::new(b)),
        ) == #[trigger] print(Expr::Prim(Box::new(c), Box::new(d)))
}

/// `p` is a subexpression of `e`, or `e` itself.
pub open spec fn part(e: Expr, p: Expr) -> bool
    decreases e,
{
    p == e || match e {
        Expr::Prim(a, b) => part(*a, p) || part(*b, p),
        _ => false,
    }
}

/// Subexpressions with the same fingerprint are equally cheap.
pub open spec fn alike(print: spec_fn(Expr) -> u64, e: Expr) -> bool {
    forall|p: Expr, q: Expr| #[trigger]
        part(e, p) && #[trigger] part(e, q) && print(p) == print(q) ==> ops(p) == ops(q)
}

/// The representative of a class has the fingerprint of the class.
spec fn own_class(print: spec_fn(Expr) -> u64, classes: Map<u64, Expr>) -> bool {
    forall|fp: u64| #[trigger] classes.contains_key(fp) ==> print(classes[fp]) == fp
}

/// Nothing is redirected to something with another fingerprint.
proof fn lemma_pass_keeps_print<E: Fn(&Vec<Step>, Complex64) -> Complex64>(
    eval: E,
    nodes: Seq<Node>,
    classes: Map<u64, Expr>,
    order: Seq<u32>,
    fps: Seq<u64>,
    print: spec_fn(Expr) -> u64,
    k: int,
)
    requires
        order_ok(nodes, order),
        pass_possible(eval, nodes, classes, order, fps),
        determined(eval, print),
        congruent(print),
        own_class(print, classes),
        0 <= k <= order.len(),
    ensures
        ({
            let (images, reps) = pass_state(nodes, classes, order, fps, k);
            &&& own_class(print, reps)
            &&& forall|id: u32| #[trigger]
                images.contains_key(id) ==> print(images[id]) == print(tree(nodes, id as int))
        }),
        forall|j: int|
            0 <= j < k ==> #[trigger] fps[j] == print(tree(nodes, order[j] as int)),
    decreases k,
{
    if k > 0 {
        lemma_pass_keeps_print(eval, nodes, classes, order, fps, print, k - 1);
        lemma_rebuilt_cost(nodes, classes, order, fps, k - 1);
        let id = order[k - 1];
        let fp = fps[k - 1];
        let n = nodes[id as int];
        let (images, reps) = pass_state(nodes, classes, order, fps, k - 1);
        let t = rebuilt_at(nodes, classes, order, fps, k - 1);
        assert(may_be_fingerprint(eval, t, fp));
        assert(node_ok(nodes, id as int));
        if n.op == Op::Prim {
            assert(tree(nodes, id as int) == Expr::Prim(
                Box::new(tree(nodes, n.a as int)),
                Box::new(tree(nodes, n.b as int)),
            ));
            assert(t == Expr::Prim(Box::new(images[n.a]), Box::new(images[n.b])));
        }
        assert(print(t) == print(tree(nodes, id as int)));
    }
}

/// What has been redirected stays so, and the representatives of the classes only get cheaper.
proof fn lemma_later_state(
    nodes: Seq<Node>,
    classes: Map<u64, Expr>,
    order: Seq<u32>,
    fps: Seq<u64>,
    j: int,
    k: int,
)
    requires
        order_ok(nodes, order),
        0 <= j <= k <= order.len(),
    ensures
        ({
            let (one, first) = pass_state(nodes, classes, order, fps, j);
            let (two, second) = pass_state(nodes, classes, order, fps, k);
            &&& forall|id: u32| #[trigger]
                one.contains_key(id) ==> two.contains_key(id) && two[id] == one[id]
            &&& forall|fp: u64| #[trigger]
                first.contains_key(fp) ==> second.contains_key(fp) && ops(second[fp]) <= ops(
                    first[fp],
                )
        }),
    decreases k,
{
    if j < k {
        lemma_later_state(nodes, classes, order, fps, j, k - 1);
        lemma_images(nodes, classes, order, fps, k - 1);
        let one = pass_state(nodes, classes, order, fps, j).0;
        let before = pass_state(nodes, classes, order, fps, k - 1).0;
        assert forall|id: u32| #[trigger] one.contains_key(id) implies id != order[k - 1] by {
            assert(before.contains_key(id));
            let i = lemma_earlier(order, k - 1, id);
            assert(order[i] == id);
        }
    }
}

/// When the whole has not become cheaper, none of its parts has.
proof fn lemma_parts_keep_cost(
    nodes: Seq<Node>,
    classes: Map<u64, Expr>,
    root: u32,
    fps: Seq<u64>,
    top: u32,
    id: u32,
)
    requires
        arena_ok(nodes),
        root < nodes.len(),
        reaches(nodes, root as int, top as int),
        reaches(nodes, top as int, id as int),
        ({
            let order = post_order(nodes, root);
            let images = pass_state(nodes, classes, order, fps, order.len() as int).0;
            ops(images[top]) >= ops(tree(nodes, top as int))
        }),
    ensures
        ({
            let order = post_order(nodes, root);
            let images = pass_state(nodes, classes, order, fps, order.len() as int).0;
            images.contains_key(id) && ops(images[id]) == ops(tree(nodes, id as int))
        }),
    decreases top,
{
    let order = post_order(nodes, root);
    let n = order.len() as int;
    let images = pass_state(nodes, classes, order, fps, n).0;
    lemma_order_ok(nodes, root);
    lemma_post_order(nodes, root);
    lemma_reaches_below(nodes, root as int, top as int);
    lemma_images(nodes, classes, order, fps, n);
    assert(order.contains(top));
    let k = choose|k: int| 0 <= k < order.len() && order[k] == top;
    assert(images.contains_key(order[k]));
    if id != top {
        assert(node_ok(nodes, top as int));
        let m = nodes[top as int];
        let before = pass_state(nodes, classes, order, fps, k).0;
        lemma_rebuilt_cost(nodes, classes, order, fps, k);
        lemma_images(nodes, classes, order, fps, k);
        lemma_later_state(nodes, classes, order, fps, k, n);
        lemma_later_state(nodes, classes, order, fps, k + 1, n);
        let after = pass_state(nodes, classes, order, fps, k + 1).0;
        assert(after.contains_key(top));
        assert(tree(nodes, top as int) == Expr::Prim(
            Box::new(tree(nodes, m.a as int)),
            Box::new(tree(nodes, m.b as int)),
        ));
        assert(ops(rebuilt(nodes, before, top)) == 1 + ops(before[m.a]) + ops(before[m.b]));
        lemma_reaches_children(nodes, root as int, top as int);
        if reaches(nodes, m.a as int, id as int) {
            lemma_parts_keep_cost(nodes, classes, root, fps, m.a, id);
        } else {
            lemma_parts_keep_cost(nodes, classes, root, fps, m.b, id);
        }
    }
}

/// A subexpression is the expression of a node that can be reached.
proof fn lemma_part_node(nodes: Seq<Node>, root: u32, p: Expr) -> (id: u32)
    requires
        arena_ok(nodes),
        root < nodes.len(),
        part(tree(nodes, root as int), p),
    ensures
        reaches(nodes, root as int, id as int),
        id < nodes.len(),
        tree(nodes, id as int) == p,
    decreases root,
{
    if p == tree(nodes, root as int) {
        root
    } else {
        assert(node_ok(nodes, root as int));
        let n = nodes[root as int];
        assert(tree(nodes, root as int) == Expr::Prim(
            Box::new(tree(nodes, n.a as int)),
            Box::new(tree(nodes, n.b as int)),
        ));
        if part(tree(nodes, n.a as int), p) {
            lemma_part_node(nodes, n.a, p)
        } else {
            lemma_part_node(nodes, n.b, p)
        }
    }
}

/// The expression of a node that can be reached is a subexpression.
proof fn lemma_node_part(nodes: Seq<Node>, root: u32, id: u32)
    requires
        arena_ok(nodes),
        root < nodes.len(),
        reaches(nodes, root as int, id as int),
    ensures
        part(tree(nodes, root as int), tree(nodes, id as int)),
    decreases root,
{
    if id != root {
        assert(node_ok(nodes, root as int));
        let n = nodes[root as int];
        assert(tree(nodes, root as int) == Expr::Prim(
            Box::new(tree(nodes, n.a as int)),
            Box::new(tree(nodes, n.b as int)),
        ));
        if reaches(nodes, n.a as int, id as int) {
            lemma_node_part(nodes, n.a, id);
        } else {
            lemma_node_part(nodes, n.b, id);
        }
    }
}

/// In every state of a run the representatives have the fingerprints of their classes.
proof fn lemma_run_own_class<E: Fn(&Vec<Step>, Complex64) -> Complex64>(
    eval: E,
    start: Expr,
    states: Seq<Progress>,
    print: spec_fn(Expr) -> u64,
    i: int,
)
    requires
        is_run(eval, start, states),
        determined(eval, print),
        congruent(print),
        0 <= i < states.len(),
    ensures
        own_class(print, states[i].1),
    decreases i,
{
    if i > 0 {
        lemma_run_own_class(eval, start, states, print, i - 1);
        let (s, t) = (states[i - 1], states[i]);
        assert(may_follow(eval, s, states[i - 1 + 1]));
        let (nodes, root, e, fps) = choose|nodes: Seq<Node>, root: u32, e: Expr, fps: Seq<u64>|
            arena_ok(nodes) && no_duplicates(nodes) && root < nodes.len() && tree(nodes, root as int) == s.0
                && #[trigger]
                may_pass_at(eval, nodes, root, s.1, e, t.1, fps) && t.0 == (if ops(e) < ops(s.0) {
                e
            } else {
                s.0
            });
        let order = post_order(nodes, root);
        lemma_order_ok(nodes, root);
        lemma_pass_keeps_print(eval, nodes, s.1, order, fps, print, order.len() as int);
    }
}

/// When a pass changes nothing, every subexpression is as cheap as the representative of its
/// class.
proof fn lemma_part_cost<E: Fn(&Vec<Step>, Complex64) -> Complex64>(
    eval: E,
    s: Progress,
    print: spec_fn(Expr) -> u64,
    p: Expr,
)
    requires
        may_follow(eval, s, s),
        determined(eval, print),
        congruent(print),
        own_class(print, s.1),
        part(s.0, p),
    ensures
        s.1.contains_key(print(p)),
        ops(p) == ops(s.1[print(p)]),
{
    let (nodes, root, e, fps) = choose|nodes: Seq<Node>, root: u32, e: Expr, fps: Seq<u64>|
        arena_ok(nodes) && no_duplicates(nodes) && root < nodes.len() && tree(nodes, root as int) == s.0
                && #[trigger]
            may_pass_at(eval, nodes, root, s.1, e, s.1, fps) && s.0 == (if ops(e) < ops(s.0) {
            e
        } else {
            s.0
        });
    let order = post_order(nodes, root);
    let n = order.len() as int;
    lemma_order_ok(nodes, root);
    lemma_post_order(nodes, root);
    let id = lemma_part_node(nodes, root, p);
    assert(order.contains(id));
    let k = choose|k: int| 0 <= k < order.len() && order[k] == id;
    lemma_pass_keeps_print(eval, nodes, s.1, order, fps, print, n);
    lemma_parts_keep_cost(nodes, s.1, root, fps, root, id);
    lemma_later_state(nodes, s.1, order, fps, 0, k);
    lemma_later_state(nodes, s.1, order, fps, k + 1, n);
    let after = pass_state(nodes, s.1, order, fps, k + 1);
    assert(after.0.contains_key(id));
    assert(after.1.contains_key(fps[k]));
    assert(fps[k] == print(p));
    assert(pass_state(nodes, s.1, order, fps, 0).1.contains_key(fps[k]));
    let reps = pass_state(nodes, s.1, order, fps, k).1;
    assert(reps.contains_key(fps[k]));
    assert(after.1[fps[k]] == settled(reps, rebuilt_at(nodes, s.1, order, fps, k), fps[k]));
    assert(after.0[id] == after.1[fps[k]]);
}

/// When a collapse goes on until nothing changes, subexpressions with the same fingerprint end
/// up equally cheap, however many there are and in whatever order they come. This needs
/// fingerprints that are determined by the expression and, for the primitive, by those of its
/// operands.
pub proof fn law_collapse_reaches_cheapest<E: Fn(&Vec<Step>, Complex64) -> Complex64>(
    eval: E,
    start: Expr,
    states: Seq<Progress>,
    print: spec_fn(Expr) -> u64,
)
    requires
        is_run(eval, start, states),
        may_follow(eval, states.last(), states.last()),
        determined(eval, print),
        congruent(print),
    ensures
        alike(print, states.last().0),
{
    let s = states.last();
    lemma_run_own_class(eval, start, states, print, states.len() - 1);
    assert forall|p: Expr, q: Expr| #[trigger]
        part(s.0, p) && #[trigger] part(s.0, q) && print(p) == print(q) implies ops(p) == ops(q) by {
        lemma_part_cost(eval, s, print, p);
        lemma_part_cost(eval, s, print, q);
    }
}

/// The representatives of the classes are as cheap as the subexpressions in them.
spec fn classes_fit(print: spec_fn(Expr) -> u64, e: Expr, classes: Map<u64, Expr>) -> bool {
    forall|p: Expr| #[trigger]
        part(e, p) && classes.contains_key(print(p)) ==> ops(classes[print(p)]) == ops(p)
}

/// Where subexpressions with the same fingerprint are equally cheap, a pass leaves all costs as
/// they are.
proof fn lemma_alike_pass<E: Fn(&Vec<Step>, Complex64) -> Complex64>(
    eval: E,
    nodes: Seq<Node>,
    root: u32,
    classes: Map<u64, Expr>,
    fps: Seq<u64>,
    print: spec_fn(Expr) -> u64,
    k: int,
)
    requires
        arena_ok(nodes),
        root < nodes.len(),
        pass_possible(eval, nodes, classes, post_order(nodes, root), fps),
        determined(eval, print),
        congruent(print),
        own_class(print, classes),
        alike(print, tree(nodes, root as int)),
        classes_fit(print, tree(nodes, root as int), classes),
        0 <= k <= post_order(nodes, root).len(),
    ensures
        ({
            let (images, reps) = pass_state(nodes, classes, post_order(nodes, root), fps, k);
            &&& classes_fit(print, tree(nodes, root as int), reps)
            &&& forall|id: u32| #[trigger]
                images.contains_key(id) ==> ops(images[id]) == ops(tree(nodes, id as int))
        }),
    decreases k,
{
    let order = post_order(nodes, root);
    if k > 0 {
        lemma_order_ok(nodes, root);
        lemma_post_order(nodes, root);
        lemma_alike_pass(eval, nodes, root, classes, fps, print, k - 1);
        lemma_rebuilt_cost(nodes, classes, order, fps, k - 1);
        lemma_pass_keeps_print(eval, nodes, classes, order, fps, print, k);
        let id = order[k - 1];
        let fp = fps[k - 1];
        let n = nodes[id as int];
        let (images, reps) = pass_state(nodes, classes, order, fps, k - 1);
        let t = rebuilt_at(nodes, classes, order, fps, k - 1);
        assert(order.contains(id));
        assert(reaches(nodes, root as int, id as int));
        lemma_node_part(nodes, root, id);
        assert(node_ok(nodes, id as int));
        if n.op == Op::Prim {
            assert(tree(nodes, id as int) == Expr::Prim(
                Box::new(tree(nodes, n.a as int)),
                Box::new(tree(nodes, n.b as int)),
            ));
            assert(t == Expr::Prim(Box::new(images[n.a]), Box::new(images[n.b])));
        }
        assert(ops(t) == ops(tree(nodes, id as int)));
        assert(fp == print(tree(nodes, id as int)));
    }
}

/// A run that starts where subexpressions with the same fingerprint are equally cheap stays
/// there.
proof fn lemma_alike_stays<E: Fn(&Vec<Step>, Complex64) -> Complex64>(
    eval: E,
    start: Expr,
    states: Seq<Progress>,
    print: spec_fn(Expr) -> u64,
    i: int,
)
    requires
        is_run(eval, start, states),
        determined(eval, print),
        congruent(print),
        alike(print, start),
        0 <= i < states.len(),
    ensures
        states[i].0 == start,
        classes_fit(print, start, states[i].1),
    decreases i,
{
    if i > 0 {
        lemma_alike_stays(eval, start, states, print, i - 1);
        lemma_run_own_class(eval, start, states, print, i - 1);
        let (s, t) = (states[i - 1], states[i]);
        assert(may_follow(eval, s, states[i - 1 + 1]));
        let (nodes, root, e, fps) = choose|nodes: Seq<Node>, root: u32, e: Expr, fps: Seq<u64>|
            arena_ok(nodes) && no_duplicates(nodes) && root < nodes.len() && tree(nodes, root as int) == s.0
                && #[trigger]
                may_pass_at(eval, nodes, root, s.1, e, t.1, fps) && t.0 == (if ops(e) < ops(s.0) {
                e
            } else {
                s.0
            });
        let order = post_order(nodes, root);
        let n = order.len() as int;
        lemma_order_ok(nodes, root);
        lemma_post_order(nodes, root);
        lemma_alike_pass(eval, nodes, root, s.1, fps, print, n);
        lemma_images(nodes, s.1, order, fps, n);
        assert(order[n - 1] == root);
    }
}

/// Collapsing what was collapsed until nothing changed leaves it as it is. As above, this needs
/// fingerprints that are determined by the expression and, for the primitive, by those of its
/// operands.
pub proof fn law_collapse_is_idempotent<E: Fn(&Vec<Step>, Complex64) -> Complex64>(
    eval: E,
    start: Expr,
    once: Seq<Progress>,
    twice: Seq<Progress>,
    print: spec_fn(Expr) -> u64,
)
    requires
        is_run(eval, start, once),
        may_follow(eval, once.last(), once.last()),
        is_run(eval, once.last().0, twice),
        determined(eval, print),
        congruent(print),
    ensures
        twice.last().0 == once.last().0,
{
    law_collapse_reaches_cheapest(eval, start, once, print);
    lemma_alike_stays(eval, once.last().0, twice, print, twice.len() - 1);
}

/// Passes over the same expression in two arenas redirect the same subexpressions to the same, when
/// an expression has one fingerprint at most.
proof fn lemma_passes_match<E: Fn(&Vec<Step>, Complex64) -> Complex64>(
    eval: E,
    m: Seq<Node>,
    c: Seq<u32>,
    fs: Seq<u64>,
    n: Seq<Node>,
    d: Seq<u32>,
    gs: Seq<u64>,
    classes: Map<u64, Expr>,
    print: spec_fn(Expr) -> u64,
    k: int,
)
    requires
        order_ok(m, c),
        no_duplicates(m),
        order_ok(n, d),
        no_duplicates(n),
        matched(m, c, n, d),
        pass_possible(eval, m, classes, c, fs),
        pass_possible(eval, n, classes, d, gs),
        determined(eval, print),
        0 <= k <= c.len(),
    ensures
        ({
            let (one, first) = pass_state(m, classes, c, fs, k);
            let (two, second) = pass_state(n, classes, d, gs, k);
            &&& first == second
            &&& forall|j: int| 0 <= j < k ==> one[#[trigger] c[j]] == two[d[j]]
        }),
    decreases k,
{
    if k > 0 {
        lemma_passes_match(eval, m, c, fs, n, d, gs, classes, print, k - 1);
        let (one, first) = pass_state(m, classes, c, fs, k - 1);
        let (two, second) = pass_state(n, classes, d, gs, k - 1);
        let (i, j) = (c[k - 1], d[k - 1]);
        let (p, q) = (m[i as int], n[j as int]);
        assert(node_ok(m, i as int));
        assert(node_ok(n, j as int));
        assert(tree(m, i as int) == tree(n, j as int));
        if p.op == Op::Prim {
            assert(tree(m, i as int) == Expr::Prim(
                Box::new(tree(m, p.a as int)),
                Box::new(tree(m, p.b as int)),
            ));
            assert(q.op == Op::Prim);
            assert(tree(n, j as int) == Expr::Prim(
                Box::new(tree(n, q.a as int)),
                Box::new(tree(n, q.b as int)),
            ));
            assert(after_children(m, c, k - 1));
            lemma_child_place(c, k - 1, p.a);
            lemma_child_place(c, k - 1, p.b);
            lemma_matched_places(m, c, p.a, n, d, q.a, c.index_of(p.a));
            lemma_matched_places(m, c, p.b, n, d, q.b, c.index_of(p.b));
            assert(one[c[c.index_of(p.a)]] == two[d[c.index_of(p.a)]]);
            assert(one[c[c.index_of(p.b)]] == two[d[c.index_of(p.b)]]);
        }
        assert(may_be_fingerprint(eval, rebuilt_at(m, classes, c, fs, k - 1), fs[k - 1]));
        assert(may_be_fingerprint(eval, rebuilt_at(n, classes, d, gs, k - 1), gs[k - 1]));
        assert(rebuilt_at(m, classes, c, fs, k - 1) == rebuilt_at(n, classes, d, gs, k - 1));
        assert(fs[k - 1] == gs[k - 1]);
        let (uno, _) = pass_state(m, classes, c, fs, k);
        let (due, _) = pass_state(n, classes, d, gs, k);
        assert forall|a: int| 0 <= a < k implies uno[#[trigger] c[a]] == due[d[a]] by {
            lemma_matched_places(m, c, i, n, d, j, a);
        }
    }
}

/// A pass leads to one outcome only, when an expression has one fingerprint at most.
proof fn lemma_follow_repeats<E: Fn(&Vec<Step>, Complex64) -> Complex64>(
    eval: E,
    s: Progress,
    t: Progress,
    u: Progress,
    print: spec_fn(Expr) -> u64,
)
    requires
        may_follow(eval, s, t),
        may_follow(eval, s, u),
        determined(eval, print),
    ensures
        t == u,
{
    let (m, i, e, fs) = choose|nodes: Seq<Node>, root: u32, e: Expr, fps: Seq<u64>|
        arena_ok(nodes) && no_duplicates(nodes) && root < nodes.len() && tree(nodes, root as int)
            == s.0 && #[trigger] may_pass_at(eval, nodes, root, s.1, e, t.1, fps) && t.0 == (if ops(
            e,
        ) < ops(s.0) {
            e
        } else {
            s.0
        });
    let (n, j, f, gs) = choose|nodes: Seq<Node>, root: u32, e: Expr, fps: Seq<u64>|
        arena_ok(nodes) && no_duplicates(nodes) && root < nodes.len() && tree(nodes, root as int)
            == s.0 && #[trigger] may_pass_at(eval, nodes, root, s.1, e, u.1, fps) && u.0 == (if ops(
            e,
        ) < ops(s.0) {
            e
        } else {
            s.0
        });
    let (c, d) = (post_order(m, i), post_order(n, j));
    lemma_order_ok(m, i);
    lemma_order_ok(n, j);
    lemma_post_order(m, i);
    lemma_post_order(n, j);
    lemma_orders_match(m, i, n, j);
    let k = c.len() as int;
    lemma_passes_match(eval, m, c, fs, n, d, gs, s.1, print, k);
    assert(c[k - 1] == i && d[k - 1] == j);
}

/// Two runs from the same expression agree as far as both go, when an expression has one
/// fingerprint at most.
proof fn lemma_runs_agree<E: Fn(&Vec<Step>, Complex64) -> Complex64>(
    eval: E,
    start: Expr,
    one: Seq<Progress>,
    two: Seq<Progress>,
    print: spec_fn(Expr) -> u64,
    i: int,
)
    requires
        is_run(eval, start, one),
        is_run(eval, start, two),
        determined(eval, print),
        0 <= i < one.len(),
        i < two.len(),
    ensures
        one[i] == two[i],
    decreases i,
{
    if i > 0 {
        lemma_runs_agree(eval, start, one, two, print, i - 1);
        assert(may_follow(eval, one[i - 1], one[i - 1 + 1]));
        assert(may_follow(eval, two[i - 1], two[i - 1 + 1]));
        lemma_follow_repeats(eval, one[i - 1], one[i], two[i], print);
    }
}

/// Once a pass changes nothing, no later one does, when an expression has one fingerprint at most.
proof fn lemma_still_stays<E: Fn(&Vec<Step>, Complex64) -> Complex64>(
    eval: E,
    start: Expr,
    states: Seq<Progress>,
    print: spec_fn(Expr) -> u64,
    i: int,
    j: int,
)
    requires
        is_run(eval, start, states),
        determined(eval, print),
        0 <= i <= j < states.len(),
        may_follow(eval, states[i], states[i]),
    ensures
        states[j] == states[i],
    decreases j,
{
    if i < j {
        lemma_still_stays(eval, start, states, print, i, j - 1);
        assert(may_follow(eval, states[j - 1], states[j - 1 + 1]));
        lemma_follow_repeats(eval, states[i], states[i], states[j], print);
    }
}

/// Collapsing the same expression twice leads to the same, as long as there is room, when an
/// expression has one fingerprint at most.
pub proof fn law_collapse_repeats<E: Fn(&Vec<Step>, Complex64) -> Complex64>(
    eval: E,
    start: Expr,
    max_iters: usize,
    one: Seq<Progress>,
    m: Seq<Node>,
    i: u32,
    two: Seq<Progress>,
    n: Seq<Node>,
    j: u32,
    print: spec_fn(Expr) -> u64,
)
    requires
        is_collapse(eval, start, one, max_iters, m, i),
        is_collapse(eval, start, two, max_iters, n, j),
        !full(m, i),
        !full(n, j),
        determined(eval, print),
    ensures
        one.last() == two.last(),
{
    if one.len() <= two.len() {
        lemma_runs_agree(eval, start, one, two, print, one.len() - 1);
        if one.len() < two.len() {
            lemma_still_stays(eval, start, two, print, one.len() - 1, two.len() - 1);
        }
    } else {
        lemma_runs_agree(eval, start, one, two, print, two.len() - 1);
        lemma_still_stays(eval, start, one, print, two.len() - 1, one.len() - 1);
    }
}

/// Every subexpression has a class with a representative that is no dearer.
spec fn covered(print: spec_fn(Expr) -> u64, s: Progress) -> bool {
    forall|p: Expr| #[trigger]
        part(s.0, p) ==> s.1.contains_key(print(p)) && ops(s.1[print(p)]) <= ops(p)
}

/// After a pass that makes nothing cheaper, every subexpression has a class.
proof fn lemma_pass_covers<E: Fn(&Vec<Step>, Complex64) -> Complex64>(
    eval: E,
    s: Progress,
    t: Progress,
    print: spec_fn(Expr) -> u64,
)
    requires
        may_follow(eval, s, t),
        t.0 == s.0,
        determined(eval, print),
        congruent(print),
        own_class(print, s.1),
    ensures
        covered(print, t),
        covered(print, s) ==> t == s,
{
    let (nodes, root, e, fps) = choose|nodes: Seq<Node>, root: u32, e: Expr, fps: Seq<u64>|
        arena_ok(nodes) && no_duplicates(nodes) && root < nodes.len() && tree(nodes, root as int)
            == s.0 && #[trigger] may_pass_at(eval, nodes, root, s.1, e, t.1, fps) && t.0 == (if ops(
            e,
        ) < ops(s.0) {
            e
        } else {
            s.0
        });
    let order = post_order(nodes, root);
    let n = order.len() as int;
    lemma_order_ok(nodes, root);
    lemma_post_order(nodes, root);
    lemma_pass_keeps_print(eval, nodes, s.1, order, fps, print, n);
    assert forall|p: Expr| #[trigger] part(s.0, p) implies t.1.contains_key(print(p)) && ops(
        t.1[print(p)],
    ) <= ops(p) by {
        let id = lemma_part_node(nodes, root, p);
        assert(order.contains(id));
        let k = choose|k: int| 0 <= k < order.len() && order[k] == id;
        lemma_parts_keep_cost(nodes, s.1, root, fps, root, id);
        lemma_later_state(nodes, s.1, order, fps, k + 1, n);
        let after = pass_state(nodes, s.1, order, fps, k + 1);
        assert(after.0.contains_key(id));
        assert(after.1.contains_key(fps[k]));
        assert(fps[k] == print(p));
    }
    if covered(print, s) {
        lemma_pass_is_still(eval, s, nodes, root, fps, print, n);
    }
}

/// A pass that makes nothing cheaper leaves the classes as they are, when every subexpression has
/// a class.
proof fn lemma_pass_is_still<E: Fn(&Vec<Step>, Complex64) -> Complex64>(
    eval: E,
    s: Progress,
    nodes: Seq<Node>,
    root: u32,
    fps: Seq<u64>,
    print: spec_fn(Expr) -> u64,
    k: int,
)
    requires
        arena_ok(nodes),
        root < nodes.len(),
        tree(nodes, root as int) == s.0,
        pass_possible(eval, nodes, s.1, post_order(nodes, root), fps),
        ({
            let order = post_order(nodes, root);
            let images = pass_state(nodes, s.1, order, fps, order.len() as int).0;
            ops(images[root]) >= ops(s.0)
        }),
        determined(eval, print),
        congruent(print),
        own_class(print, s.1),
        covered(print, s),
        0 <= k <= post_order(nodes, root).len(),
    ensures
        pass_state(nodes, s.1, post_order(nodes, root), fps, k).1 == s.1,
    decreases k,
{
    if k > 0 {
        let order = post_order(nodes, root);
        let n = order.len() as int;
        let id = order[k - 1];
        lemma_pass_is_still(eval, s, nodes, root, fps, print, k - 1);
        lemma_order_ok(nodes, root);
        lemma_post_order(nodes, root);
        assert(order.contains(id));
        assert(reaches(nodes, root as int, id as int));
        lemma_node_part(nodes, root, id);
        lemma_pass_keeps_print(eval, nodes, s.1, order, fps, print, k);
        lemma_rebuilt_cost(nodes, s.1, order, fps, k - 1);
        lemma_parts_keep_cost(nodes, s.1, root, fps, root, id);
        lemma_later_state(nodes, s.1, order, fps, k, n);
        let p = tree(nodes, id as int);
        assert(part(s.0, p));
        assert(fps[k - 1] == print(p));
        let (images, reps) = pass_state(nodes, s.1, order, fps, k - 1);
        let t = rebuilt_at(nodes, s.1, order, fps, k - 1);
        let after = pass_state(nodes, s.1, order, fps, k);
        assert(after.0.contains_key(id));
        assert(after.0[id] == settled(reps, t, fps[k - 1]));
        assert(ops(t) == ops(p));
        assert(after.1 =~= s.1);
    }
}

/// The number of leaves and primitives is odd.
proof fn lemma_ops_odd(e: Expr)
    ensures
        ops(e) % 2 == 1,
    decreases e,
{
    if let Expr::Prim(a, b) = e {
        lemma_ops_odd(*a);
        lemma_ops_odd(*b);
    }
}

/// As long as every pass changes something, there are no more of them than the expression loses
/// operations, but for one that may have filled the classes only.
proof fn lemma_passes_bounded<E: Fn(&Vec<Step>, Complex64) -> Complex64>(
    eval: E,
    start: Expr,
    states: Seq<Progress>,
    print: spec_fn(Expr) -> u64,
    i: int,
)
    requires
        is_run(eval, start, states),
        determined(eval, print),
        congruent(print),
        0 <= i < states.len(),
        forall|j: int| 0 <= j < i ==> #[trigger] states[j] != states[j + 1],
    ensures
        i + ops(states[i].0) <= ops(start) + if covered(print, states[i]) {
            1int
        } else {
            0int
        },
    decreases i,
{
    if i > 0 {
        lemma_passes_bounded(eval, start, states, print, i - 1);
        lemma_run_own_class(eval, start, states, print, i - 1);
        let (s, t) = (states[i - 1], states[i]);
        assert(may_follow(eval, s, states[i - 1 + 1]));
        assert(states[i - 1] != states[i - 1 + 1]);
        lemma_ops_odd(s.0);
        lemma_ops_odd(t.0);
        if t.0 == s.0 {
            lemma_pass_covers(eval, s, t, print);
        }
    }
}

/// A collapse that may make more passes than the expression has operations goes on until nothing
/// changes, as long as there is room. As above, this needs fingerprints that are determined by the
/// expression and, for the primitive, by those of its operands.
pub proof fn law_enough_passes_settle<E: Fn(&Vec<Step>, Complex64) -> Complex64>(
    eval: E,
    start: Expr,
    states: Seq<Progress>,
    max_iters: usize,
    nodes: Seq<Node>,
    root: u32,
    print: spec_fn(Expr) -> u64,
)
    requires
        is_collapse(eval, start, states, max_iters, nodes, root),
        max_iters > ops(start),
        !full(nodes, root),
        determined(eval, print),
        congruent(print),
    ensures
        may_follow(eval, states.last(), states.last()),
{
    if states.len() == max_iters + 1 {
        let last = states.len() - 1;
        if forall|j: int| 0 <= j < last ==> #[trigger] states[j] != states[j + 1] {
            lemma_passes_bounded(eval, start, states, print, last);
            lemma_ops_odd(states[last].0);
        } else {
            let j = choose|j: int| 0 <= j < last && #[trigger] states[j] == states[j + 1];
            assert(may_follow(eval, states[j], states[j + 1]));
            lemma_still_stays(eval, start, states, print, j, last);
        }
    }
}

/// Collapsing what was collapsed with more passes than the expression has operations leaves it as it
/// is, however many passes are made, as long as there is room. The same premises are needed.
pub proof fn law_enough_passes_are_idempotent<E: Fn(&Vec<Step>, Complex64) -> Complex64>(
    eval: E,
    start: Expr,
    once: Seq<Progress>,
    max_iters: usize,
    nodes: Seq<Node>,
    root: u32,
    twice: Seq<Progress>,
    print: spec_fn(Expr) -> u64,
)
    requires
        is_collapse(eval, start, once, max_iters, nodes, root),
        max_iters > ops(start),
        !full(nodes, root),
        is_run(eval, once.last().0, twice),
        determined(eval, print),
        congruent(print),
    ensures
        twice.last().0 == once.last().0,
{
    law_enough_passes_settle(eval, start, once, max_iters, nodes, root, print);
    law_collapse_is_idempotent(eval, start, once, twice, print);
}

/// A pass redirects an expression to something no dearer than any of its parts that have its
/// fingerprint.
proof fn lemma_pass_meets_part<E: Fn(&Vec<Step>, Complex64) -> Complex64>(
    eval: E,
    s: Progress,
    t: Progress,
    print: spec_fn(Expr) -> u64,
    p: Expr,
)
    requires
        may_follow(eval, s, t),
        determined(eval, print),
        congruent(print),
        own_class(print, s.1),
        part(s.0, p),
        print(p) == print(s.0),
    ensures
        ops(t.0) <= ops(p),
{
    let (nodes, root, e, fps) = choose|nodes: Seq<Node>, root: u32, e: Expr, fps: Seq<u64>|
        arena_ok(nodes) && no_duplicates(nodes) && root < nodes.len() && tree(nodes, root as int)
            == s.0 && #[trigger] may_pass_at(eval, nodes, root, s.1, e, t.1, fps) && t.0 == (if ops(
            e,
        ) < ops(s.0) {
            e
        } else {
            s.0
        });
    let order = post_order(nodes, root);
    let n = order.len() as int;
    lemma_order_ok(nodes, root);
    lemma_post_order(nodes, root);
    let id = lemma_part_node(nodes, root, p);
    if id != root {
        assert(order.contains(id));
        let k = choose|k: int| 0 <= k < order.len() && order[k] == id;
        assert(order[n - 1] == root);
        lemma_pass_keeps_print(eval, nodes, s.1, order, fps, print, n);
        lemma_images(nodes, s.1, order, fps, k + 1);
        lemma_later_state(nodes, s.1, order, fps, k + 1, n - 1);
        let after = pass_state(nodes, s.1, order, fps, k + 1);
        assert(after.0.contains_key(order[k]));
        assert(after.1.contains_key(fps[k]));
        assert(fps[k] == print(p));
        assert(fps[n - 1] == print(s.0));
        assert(pass_state(nodes, s.1, order, fps, n - 1).1.contains_key(fps[k]));
    } else {
        lemma_images(nodes, s.1, order, fps, n);
        assert(order[n - 1] == root);
    }
}

/// Expressions only get cheaper in a run.
proof fn lemma_run_descends<E: Fn(&Vec<Step>, Complex64) -> Complex64>(
    eval: E,
    start: Expr,
    states: Seq<Progress>,
    i: int,
    j: int,
)
    requires
        is_run(eval, start, states),
        0 <= i <= j < states.len(),
    ensures
        ops(states[j].0) <= ops(states[i].0),
    decreases j,
{
    if i < j {
        lemma_run_descends(eval, start, states, i, j - 1);
        assert(may_follow(eval, states[j - 1], states[j - 1 + 1]));
    }
}

/// Collapsing finds what is there to be found: the outcome is no dearer than any part of the
/// expression that has the fingerprint of the whole, if a pass may be made and there is room. This
/// needs fingerprints that are determined by the expression and, for the primitive, by those of its
/// operands.
pub proof fn law_collapse_meets_equal_parts<E: Fn(&Vec<Step>, Complex64) -> Complex64>(
    eval: E,
    start: Expr,
    states: Seq<Progress>,
    max_iters: usize,
    nodes: Seq<Node>,
    root: u32,
    print: spec_fn(Expr) -> u64,
    p: Expr,
)
    requires
        is_collapse(eval, start, states, max_iters, nodes, root),
        max_iters > 0,
        !full(nodes, root),
        determined(eval, print),
        congruent(print),
        part(start, p),
        print(p) == print(start),
    ensures
        ops(states.last().0) <= ops(p),
{
    let s = states[0];
    lemma_run_own_class(eval, start, states, print, 0);
    if states.len() > 1 {
        assert(may_follow(eval, states[0], states[0int + 1]));
        lemma_pass_meets_part(eval, s, states[1], print, p);
        lemma_run_descends(eval, start, states, 1, states.len() - 1);
    } else {
        lemma_pass_meets_part(eval, s, s, print, p);
    }
}

/// Collapsing keeps the fingerprint of an expression. The same premises are needed.
pub proof fn law_collapse_keeps_print<E: Fn(&Vec<Step>, Complex64) -> Complex64>(
    eval: E,
    start: Expr,
    states: Seq<Progress>,
    print: spec_fn(Expr) -> u64,
)
    requires
        is_run(eval, start, states),
        determined(eval, print),
        congruent(print),
    ensures
        print(states.last().0) == print(start),
{
    lemma_run_keeps_print(eval, start, states, print, states.len() - 1);
}

proof fn lemma_run_keeps_print<E: Fn(&Vec<Step>, Complex64) -> Complex64>(
    eval: E,
    start: Expr,
    states: Seq<Progress>,
    print: spec_fn(Expr) -> u64,
    i: int,
)
    requires
        is_run(eval, start, states),
        determined(eval, print),
        congruent(print),
        0 <= i < states.len(),
    ensures
        print(states[i].0) == print(start),
    decreases i,
{
    if i > 0 {
        lemma_run_keeps_print(eval, start, states, print, i - 1);
        lemma_run_own_class(eval, start, states, print, i - 1);
        let (s, t) = (states[i - 1], states[i]);
        assert(may_follow(eval, s, states[i - 1 + 1]));
        let (nodes, root, e, fps) = choose|nodes: Seq<Node>, root: u32, e: Expr, fps: Seq<u64>|
            arena_ok(nodes) && no_duplicates(nodes) && root < nodes.len() && tree(
                nodes,
                root as int,
            ) == s.0 && #[trigger] may_pass_at(eval, nodes, root, s.1, e, t.1, fps) && t.0 == (
            if ops(e) < ops(s.0) {
                e
            } else {
                s.0
            });
        let order = post_order(nodes, root);
        let n = order.len() as int;
        lemma_order_ok(nodes, root);
        lemma_post_order(nodes, root);
        lemma_pass_keeps_print(eval, nodes, s.1, order, fps, print, n);
        lemma_images(nodes, s.1, order, fps, n);
        assert(order[n - 1] == root);
    }
}

} // verus!
