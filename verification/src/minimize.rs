//! Minimization: an expression is handed to equality saturation, searched for a cheaper form, and
//! collapsed.

use vstd::prelude::*;

use crate::arena::{
    arena_ok, consts_apart, distances_agree, extends, law_constants_apart_are_separated,
    lemma_tree_extends, no_duplicates, node_ok, prim_node, separated, tree, Arena, Interner, Node,
    Op, NIL,
};
use crate::complex::{may_be_within, Complex64};
use crate::config::MACHINE_TOLERANCE;
use crate::equiv::{
    collapse_equivalent_subtrees, congruent, determined, full, is_collapse,
    law_collapse_is_not_dearer, law_collapse_keeps_print, law_collapse_meets_equal_parts,
    law_collapse_repeats, may_be_fingerprint, part, Progress,
};
use crate::expr::{lemma_stands_for_ops, ops, stands_for, well_separated, Expr};
use crate::fingerprint::{
    evaluator, lemma_encoded_len, may_encode, may_give, may_hash, may_sample, points, sample_bytes,
    samples_code, xxh3,
};
use crate::float::{float_from, float_lt, float_of, get_product, lt, negate, negated, product};
use crate::graph::{
    after_children, lemma_post_order, lemma_reaches_below, lemma_reaches_children, post_order,
    reaches,
};
use crate::plan::{
    ids_linked, ids_stand, intern_steps, law_apart_is_well_separated, law_distinct_steps_are_kept,
    law_interned_steps_stand, law_interning_steps_repeats, law_plan_denotes, law_same_expression_same_plan,
    law_separated_plan_is_kept, lemma_child_place, lemma_plan_extends, linked_at, make_plan, plan_at,
    plan_ok, step_node, step_nodes, step_ok, step_tree, steps_interned, Step,
};
use crate::saturate::{
    arena_to_recexpr, check_terms, recexpr_to_arena, term_steps, terms_ok, terms_run, terms_tree,
    ConstTable, L,
};
use crate::stochastic::{
    capped, capped_op_count, default_config, is_search, law_exact_match_agrees,
    law_search_does_not_lose, may_find_judged, op_count, search, Generation, SearchConfig,
    SearchResult,
};

verus! {

/// The step that a node is, when the nodes are taken in order.
pub open spec fn node_step(n: Node) -> Step {
    match n.op {
        Op::Var => Step::Var,
        Op::Const => Step::Const(n.const_val->0),
        Op::Prim => Step::Prim(n.a as usize, n.b as usize),
    }
}

/// The steps that the nodes of an arena are.
pub open spec fn arena_steps(nodes: Seq<Node>) -> Seq<Step> {
    Seq::new(nodes.len(), |k: int| node_step(nodes[k]))
}

/// The steps of an arena stand for the same as its nodes.
proof fn lemma_arena_steps(nodes: Seq<Node>, k: int)
    requires
        arena_ok(nodes),
        0 <= k < nodes.len(),
    ensures
        step_ok(arena_steps(nodes), k),
        step_tree(arena_steps(nodes), k) == tree(nodes, k),
    decreases k,
{
    assert(node_ok(nodes, k));
    let n = nodes[k];
    if n.op == Op::Prim {
        lemma_arena_steps(nodes, n.a as int);
        lemma_arena_steps(nodes, n.b as int);
    }
}

/// Each node of `src` has been interned, from the first to the last.
pub open spec fn rehydrated(src: Seq<Node>, nodes: Seq<Node>, map: Seq<u32>) -> bool {
    steps_interned(Seq::empty(), arena_steps(src), nodes, map)
}

/// Interns the nodes of an arena anew, from the first to the last. The interner is returned, and
/// for each node the index under which it is now found.
pub fn rehydrate(src: &Arena) -> (r: (Interner, Vec<u32>))
    requires
        arena_ok(src.nodes@),
    ensures
        r.0.wf(),
        r.0.nodes().len() <= src.nodes@.len(),
        consts_apart(r.0.nodes()),
        r.1@.len() == src.nodes@.len(),
        rehydrated(src.nodes@, r.0.nodes(), r.1@),
        forall|k: int|
            0 <= k < r.1@.len() ==> (#[trigger] r.1@[k]) < r.0.nodes().len() && stands_for(
                r.0.expr(r.1@[k]),
                tree(src.nodes@, k),
            ),
{
    let ghost nodes = src.nodes@;
    let mut interner = Interner::new();
    let mut steps: Vec<Step> = Vec::new();
    let mut k: usize = 0;
    while k < src.nodes.len()
        invariant
            nodes == src.nodes@,
            arena_ok(nodes),
            k <= nodes.len(),
            steps@.len() == k,
            forall|j: int| 0 <= j < k ==> #[trigger] steps@[j] == node_step(nodes[j]),
        decreases nodes.len() - k,
    {
        assert(node_ok(nodes, k as int));
        let n = src.nodes[k];
        let step = match n.op {
            Op::Var => Step::Var,
            Op::Const => match n.const_val {
                Some(v) => Step::Const(v),
                None => Step::Var,
            },
            Op::Prim => Step::Prim(n.a as usize, n.b as usize),
        };
        steps.push(step);
        k += 1;
    }
    proof {
        assert(steps@ =~= arena_steps(nodes));
        assert forall|j: int| 0 <= j < nodes.len() implies #[trigger] step_ok(steps@, j) by {
            lemma_arena_steps(nodes, j);
        }
    }
    let map = intern_steps(&mut interner, &steps);
    proof {
        assert forall|j: int| 0 <= j < map@.len() implies (#[trigger] map@[j])
            < interner.nodes().len() && stands_for(interner.expr(map@[j]), tree(nodes, j)) by {
            lemma_arena_steps(nodes, j);
        }
    }
    (interner, map)
}

/// An arena without duplicates, and with constants that are not within the tolerance of each
/// other, comes out as it was, every node under its own index.
pub proof fn law_rehydrate_keeps_indices(src: Seq<Node>, nodes: Seq<Node>, map: Seq<u32>)
    requires
        arena_ok(src),
        no_duplicates(src),
        separated(src),
        rehydrated(src, nodes, map),
    ensures
        nodes == src,
        map == Seq::new(src.len(), |k: int| k as u32),
{
    let plan = arena_steps(src);
    assert forall|k: int| 0 <= k < plan.len() implies #[trigger] step_ok(plan, k) && step_node(
        plan[k],
    ) == src[k] by {
        lemma_arena_steps(src, k);
        assert(node_ok(src, k));
    }
    assert forall|i: int, j: int| 0 <= i < plan.len() && 0 <= j < plan.len() && i != j implies plan[i]
        != plan[j] by {
        assert(step_ok(plan, i) && step_ok(plan, j));
        assert(src[i] != src[j]);
    }
    assert forall|i: int, j: int|
        #![trigger plan[i], plan[j]]
        0 <= i < j < plan.len() implies match (plan[i], plan[j]) {
        (Step::Const(c), Step::Const(v)) => !may_be_within(c, v, MACHINE_TOLERANCE),
        _ => true,
    } by {
        assert(src[i].op == Op::Const && src[j].op == Op::Const ==> !may_be_within(
            src[i].const_val->0,
            src[j].const_val->0,
            MACHINE_TOLERANCE,
        ));
    }
    law_distinct_steps_are_kept(plan, nodes, map);
    assert forall|k: int| 0 <= k < plan.len() implies #[trigger] step_nodes(plan)[k] == src[k] by {
        assert(step_ok(plan, k));
    }
    assert(step_nodes(plan) =~= src);
}

/// The arena of an interner comes out as it was, every node under its own index, where the distance
/// test says the same each time.
pub proof fn law_rehydrate_keeps_interner(src: Seq<Node>, nodes: Seq<Node>, map: Seq<u32>)
    requires
        arena_ok(src),
        no_duplicates(src),
        consts_apart(src),
        distances_agree(),
        rehydrated(src, nodes, map),
    ensures
        nodes == src,
        map == Seq::new(src.len(), |k: int| k as u32),
{
    law_constants_apart_are_separated(src);
    law_rehydrate_keeps_indices(src, nodes, map);
}

/// What can be reached in an arena can be reached in one that its plan was interned in.
proof fn lemma_plan_reaches(
    nodes: Seq<Node>,
    root: u32,
    out: Seq<Node>,
    ids: Seq<u32>,
    top: u32,
    x: u32,
)
    requires
        arena_ok(nodes),
        root < nodes.len(),
        arena_ok(out),
        ids.len() == plan_at(nodes, root).len(),
        ids_stand(out, plan_at(nodes, root), ids),
        ids_linked(out, plan_at(nodes, root), ids),
        reaches(nodes, root as int, top as int),
        reaches(nodes, top as int, x as int),
        reaches(out, ids.last() as int, ids[post_order(nodes, root).index_of(top)] as int),
    ensures
        reaches(out, ids.last() as int, ids[post_order(nodes, root).index_of(x)] as int),
    decreases top,
{
    if x != top {
        let order = post_order(nodes, root);
        lemma_post_order(nodes, root);
        lemma_reaches_below(nodes, root as int, top as int);
        assert(node_ok(nodes, top as int));
        let n = nodes[top as int];
        assert(order.contains(top));
        let k = order.index_of(top);
        assert(after_children(nodes, order, k));
        lemma_child_place(order, k, n.a);
        lemma_child_place(order, k, n.b);
        lemma_reaches_children(nodes, root as int, top as int);
        assert(plan_at(nodes, root)[k] == Step::Prim(
            order.index_of(n.a) as usize,
            order.index_of(n.b) as usize,
        ));
        assert(linked_at(out, plan_at(nodes, root), ids, k));
        assert(out[ids[k] as int] == prim_node(
            ids[order.index_of(n.a)],
            ids[order.index_of(n.b)],
        ));
        let last = ids.len() - 1;
        assert(ids[last] < out.len());
        lemma_reaches_below(out, ids.last() as int, ids[k] as int);
        lemma_reaches_children(out, ids.last() as int, ids[k] as int);
        if reaches(nodes, n.a as int, x as int) {
            lemma_plan_reaches(nodes, root, out, ids, n.a, x);
        } else {
            lemma_plan_reaches(nodes, root, out, ids, n.b, x);
        }
    }
}

/// A fresh arena that holds the expression rooted at `root` and nothing else, and the index of
/// the root in it.
pub fn extract_minimal_arena(interner: &Interner, root: u32) -> (r: (Arena, u32))
    requires
        interner.wf(),
        root < interner.nodes().len(),
    ensures
        arena_ok(r.0.nodes@),
        no_duplicates(r.0.nodes@),
        r.1 < r.0.nodes@.len(),
        r.0.nodes@.len() <= plan_at(interner.nodes(), root).len(),
        exists|ids: Seq<u32>|
            ids.len() > 0 && r.1 == ids.last() && #[trigger] steps_interned(
                Seq::empty(),
                plan_at(interner.nodes(), root),
                r.0.nodes@,
                ids,
            ),
        stands_for(tree(r.0.nodes@, r.1 as int), interner.expr(root)),
        forall|n: u32|
            n < r.0.nodes@.len() ==> #[trigger] reaches(r.0.nodes@, r.1 as int, n as int),
{
    let ghost nodes = interner.nodes();
    let mut out = Interner::new();
    let plan = make_plan(interner, root);
    proof {
        interner.lemma_wf();
        lemma_post_order(nodes, root);
    }
    let ids = intern_steps(&mut out, &plan);
    let new_root = ids[ids.len() - 1];
    proof {
        out.lemma_wf();
        let order = post_order(nodes, root);
        let last = ids@.len() - 1;
        assert(ids@[last] == new_root);
        assert(order[last] == root);
        assert(order.index_of(root) == last);
        assert forall|n: u32| n < out.nodes().len() implies #[trigger] reaches(
            out.nodes(),
            new_root as int,
            n as int,
        ) by {
            assert(ids@.contains(n));
            let k = choose|k: int| 0 <= k < ids@.len() && ids@[k] == n;
            let x = order[k];
            assert(order.contains(x));
            assert(reaches(nodes, root as int, x as int));
            assert(order.index_of(x) == k);
            lemma_plan_reaches(nodes, root, out.nodes(), ids@, root, x);
        }
    }
    (out.into_arena(), new_root)
}

/// `bytes` is the code of samples that `eval` may give for `e`.
pub open spec fn may_have_samples<E: Fn(&Vec<Step>, Complex64) -> Complex64>(
    eval: E,
    e: Expr,
    bytes: Seq<u8>,
) -> bool {
    exists|plan: Seq<Step>| #[trigger]
        may_encode(eval, plan, bytes) && plan_ok(plan) && step_tree(plan, plan.len() - 1) == e
}

/// The samples of a node are samples of its expression.
proof fn lemma_node_samples<E: Fn(&Vec<Step>, Complex64) -> Complex64>(
    eval: E,
    nodes: Seq<Node>,
    id: u32,
    bytes: Seq<u8>,
)
    requires
        arena_ok(nodes),
        id < nodes.len(),
        may_encode(eval, plan_at(nodes, id), bytes),
    ensures
        may_have_samples(eval, tree(nodes, id as int), bytes),
{
    law_plan_denotes(nodes, id);
}

/// The terms can be interned.
pub open spec fn usable(nodes: Seq<Node>, terms: Seq<L>, values: Seq<Complex64>) -> bool {
    terms_ok(terms, values) && nodes.len() + terms.len() <= NIL
}

/// An expression with `e`'s operations may take the place of `start`: it is not dearer, and its
/// operations can be counted.
pub open spec fn is_affordable(e: Expr, start: Expr) -> bool {
    capped(ops(e)) < u64::MAX && capped(ops(e)) <= capped(ops(start))
}

/// What may become of the expression that was extracted, once it stands at `id`: it is taken
/// when it has the samples of the target, and not taken when its samples differ or it is dearer or
/// has too many operations to count.
pub open spec fn may_take<E: Fn(&Vec<Step>, Complex64) -> Complex64>(
    eval: E,
    nodes: Seq<Node>,
    root: u32,
    target: Seq<u8>,
    id: u32,
    best: u32,
) -> bool {
    let fits = is_affordable(tree(nodes, id as int), tree(nodes, root as int));
    exists|bytes: Seq<u8>| #[trigger]
        may_encode(eval, plan_at(nodes, id), bytes) && best == (if fits && bytes == target {
            id
        } else {
            root
        })
}

/// What may become of an extraction: its terms are interned one after the other, which leads from
/// `nodes` to `after`, and `best` then stands in the place of `root`. Terms that cannot be interned
/// change nothing.
pub open spec fn may_accept<E: Fn(&Vec<Step>, Complex64) -> Complex64>(
    eval: E,
    nodes: Seq<Node>,
    root: u32,
    target: Seq<u8>,
    terms: Seq<L>,
    values: Seq<Complex64>,
    after: Seq<Node>,
    best: u32,
) -> bool {
    if usable(nodes, terms, values) {
        exists|ids: Seq<u32>|
            ids.len() > 0 && ids.last() < after.len() && #[trigger] steps_interned(
                nodes,
                term_steps(terms, values),
                after,
                ids,
            ) && may_take(eval, after, root, target, ids.last(), best)
    } else {
        best == root && after == nodes
    }
}

/// Interns the expression that saturation has extracted, and takes it in the place of `root`
/// when it has the samples of the target and is not dearer. An extraction that cannot be interned,
/// or whose samples differ, is never trusted: `root` stays.
pub fn accept_extraction<E: Fn(&Vec<Step>, Complex64) -> Complex64>(
    interner: &mut Interner,
    root: u32,
    target: &Vec<u8>,
    terms: &Vec<L>,
    consts: &ConstTable,
    eval: &E,
) -> (best: u32)
    requires
        old(interner).wf(),
        root < old(interner).nodes().len(),
        evaluator(*eval),
    ensures
        final(interner).wf(),
        extends(old(interner).nodes(), final(interner).nodes()),
        best < final(interner).nodes().len(),
        may_accept(
            *eval,
            old(interner).nodes(),
            root,
            target@,
            terms@,
            consts.values(),
            final(interner).nodes(),
            best,
        ),
        consts_apart(old(interner).nodes()) ==> consts_apart(final(interner).nodes()),
{
    if !check_terms(terms, consts) || terms.len() > NIL as usize || interner.len() > NIL as usize
        - terms.len() {
        return root;
    }
    let id = recexpr_to_arena(terms, consts, interner);
    let bytes = sample_bytes(interner, id, eval);
    let count = capped_op_count(interner, id);
    let limit = capped_op_count(interner, root);
    let same = check_same(&bytes, target);
    let best = if count < u64::MAX && count <= limit && same {
        id
    } else {
        root
    };
    assert(may_take(*eval, interner.nodes(), root, target@, id, best));
    best
}

fn check_same(a: &Vec<u8>, b: &Vec<u8>) -> (r: bool)
    ensures
        r == (a@ == b@),
{
    if a.len() != b.len() {
        return false;
    }
    let mut i: usize = 0;
    while i < a.len()
        invariant
            a@.len() == b@.len(),
            i <= a@.len(),
            forall|j: int| 0 <= j < i ==> #[trigger] a@[j] == b@[j],
        decreases a@.len() - i,
    {
        if a[i] != b[i] {
            return false;
        }
        i += 1;
    }
    assert(a@ =~= b@);
    true
}

/// The outcome of a search takes the place of an expression with `cost` operations: it has the
/// values of the target, and is fitter than an exact match with `cost` operations would be.
pub open spec fn takes_over(
    exact_match_found: bool,
    best_fitness: u64,
    cost: u64,
    lambda: u64,
) -> bool {
    exact_match_found && float_lt(negated(product(float_of(cost), lambda)), best_fitness)
}

pub fn check_takes_over(result: &SearchResult, cost: u64, lambda: u64) -> (r: bool)
    ensures
        r == takes_over(result.exact_match_found, result.best_fitness, cost, lambda),
{
    let bar = negate(get_product(float_from(cost), lambda));
    result.exact_match_found && lt(bar, result.best_fitness)
}

/// `0.7`: the share of the time that saturation gets.
pub const SATURATION_SHARE: u64 = 0x3fe6_6666_6666_6666;

/// How many passes the final collapse makes at most.
pub const COLLAPSE_PASSES: usize = 8;

/// `saturate` was handed the expression rooted at `id` as terms, and gave `out` back.
pub open spec fn may_saturate<S: Fn(&Vec<L>, &ConstTable) -> (Vec<L>, ConstTable, bool)>(
    saturate: S,
    nodes: Seq<Node>,
    id: u32,
    out: (Vec<L>, ConstTable, bool),
) -> bool {
    let plan = plan_at(nodes, id);
    exists|terms: Vec<L>, consts: ConstTable|
        (terms@, consts.values()) == terms_run(plan, Seq::empty(), plan.len() as int)
            && #[trigger] call_ensures(saturate, (&terms, &consts), out)
}

/// What stands in the place of `taken` after a search from it that ends with `r`.
pub open spec fn after_search(
    before: Seq<Node>,
    taken: u32,
    after: Seq<Node>,
    r: SearchResult,
) -> u32 {
    let e = tree(before, taken as int);
    if takes_over(
        r.exact_match_found,
        r.best_fitness,
        capped(ops(e)),
        default_config().lambda,
    ) && is_affordable(tree(after, r.best as int), e) {
        r.best
    } else {
        taken
    }
}

/// What may follow extraction: nothing when saturation was complete or the time is up, and
/// otherwise a search.
pub open spec fn may_improve<E: Fn(&Vec<Step>, Complex64) -> Complex64, K: Fn() -> bool>(
    eval: E,
    in_time: K,
    target: Seq<u8>,
    complete: bool,
    before: Seq<Node>,
    taken: u32,
    after: Seq<Node>,
    best: u32,
) -> bool {
    if complete {
        after == before && best == taken
    } else {
        (call_ensures(in_time, (), false) && after == before && best == taken) || (call_ensures(
            in_time,
            (),
            true,
        ) && exists|start: (u64, u64), gens: Seq<Generation>, r: SearchResult| #[trigger]
            is_search(
                eval,
                in_time,
                before,
                taken,
                target,
                default_config(),
                start,
                gens,
                after,
                r,
            ) && best == after_search(before, taken, after, r))
    }
}

/// What may be kept after a collapse: its outcome `last` when that has the samples of the target, and
/// otherwise `best`, which stood there before.
pub open spec fn may_keep<E: Fn(&Vec<Step>, Complex64) -> Complex64>(
    eval: E,
    target: Seq<u8>,
    nodes: Seq<Node>,
    best: u32,
    last: u32,
    kept: u32,
) -> bool {
    exists|bytes: Seq<u8>| #[trigger]
        may_encode(eval, plan_at(nodes, last), bytes) && kept == (if bytes == target {
            last
        } else {
            best
        })
}

/// The course of a minimization.
pub struct Course {
    /// The nodes after the input was interned anew.
    pub first: Seq<Node>,
    /// Where the nodes of the input are found among them.
    pub map: Seq<u32>,
    /// The samples of the input, as it was interned.
    pub target: Seq<u8>,
    /// What saturation gave back.
    pub out: (Vec<L>, ConstTable, bool),
    /// The nodes after the extraction was interned, and the root that was taken.
    pub second: Seq<Node>,
    pub taken: u32,
    /// The nodes after the search, and the root that it leaves.
    pub third: Seq<Node>,
    pub best: u32,
    /// The passes of the collapse, the nodes after it, and the root that it leads to.
    pub states: Seq<Progress>,
    pub fourth: Seq<Node>,
    pub last: u32,
    /// The root of what is kept.
    pub kept: u32,
    /// Where the steps of what is kept are found in the end.
    pub ids: Seq<u32>,
}

/// At each stage of a course the nodes are in order, and nodes are only added.
pub open spec fn course_ok(c: Course) -> bool {
    &&& arena_ok(c.first)
    &&& arena_ok(c.second)
    &&& arena_ok(c.third)
    &&& arena_ok(c.fourth)
    &&& extends(c.first, c.second)
    &&& extends(c.second, c.third)
    &&& extends(c.third, c.fourth)
    &&& c.taken < c.second.len()
    &&& c.best < c.third.len()
    &&& c.last < c.fourth.len()
    &&& c.kept < c.fourth.len()
    &&& no_duplicates(c.fourth)
    &&& consts_apart(c.fourth)
}

/// How a minimization of the expression rooted at `root` in the arena `src` may have come to the
/// arena `nodes` and the root `new_root`.
pub open spec fn is_minimization<
    E: Fn(&Vec<Step>, Complex64) -> Complex64,
    S: Fn(&Vec<L>, &ConstTable) -> (Vec<L>, ConstTable, bool),
    K: Fn() -> bool,
>(
    eval: E,
    saturate: S,
    in_time: K,
    src: Seq<Node>,
    root: u32,
    c: Course,
    nodes: Seq<Node>,
    new_root: u32,
) -> bool {
    let start = c.map[root as int];
    &&& course_ok(c)
    &&& rehydrated(src, c.first, c.map)
    &&& start < c.first.len()
    &&& may_encode(eval, plan_at(c.first, start), c.target)
    &&& may_saturate(saturate, c.first, start, c.out)
    &&& may_accept(
        eval,
        c.first,
        start,
        c.target,
        c.out.0@,
        c.out.1.values(),
        c.second,
        c.taken,
    )
    &&& may_improve(eval, in_time, c.target, c.out.2, c.second, c.taken, c.third, c.best)
    &&& is_collapse(
        eval,
        tree(c.third, c.best as int),
        c.states,
        COLLAPSE_PASSES,
        c.fourth,
        c.last,
    )
    &&& tree(c.fourth, c.last as int) == c.states.last().0
    &&& may_keep(eval, c.target, c.fourth, c.best, c.last, c.kept)
    &&& c.ids.len() > 0
    &&& new_root == c.ids.last()
    &&& steps_interned(Seq::empty(), plan_at(c.fourth, c.kept), nodes, c.ids)
}

/// What is taken has the samples of the target, and is not dearer.
proof fn lemma_taken_samples<E: Fn(&Vec<Step>, Complex64) -> Complex64>(
    eval: E,
    before: Seq<Node>,
    start: u32,
    target: Seq<u8>,
    terms: Seq<L>,
    values: Seq<Complex64>,
    after: Seq<Node>,
    taken: u32,
)
    requires
        arena_ok(before),
        arena_ok(after),
        extends(before, after),
        start < before.len(),
        may_encode(eval, plan_at(before, start), target),
        may_accept(eval, before, start, target, terms, values, after, taken),
    ensures
        may_encode(eval, plan_at(after, taken), target),
        ops(tree(before, start as int)) <= u64::MAX ==> ops(tree(after, taken as int)) <= ops(
            tree(before, start as int),
        ),
{
    lemma_plan_extends(before, after, start);
    lemma_tree_extends(before, after, start as int);
}

/// What a search leaves has the samples of the target, and is not dearer.
proof fn lemma_best_samples<E: Fn(&Vec<Step>, Complex64) -> Complex64, K: Fn() -> bool>(
    eval: E,
    in_time: K,
    target: Seq<u8>,
    complete: bool,
    before: Seq<Node>,
    taken: u32,
    after: Seq<Node>,
    best: u32,
)
    requires
        arena_ok(before),
        extends(before, after),
        taken < before.len(),
        may_encode(eval, plan_at(before, taken), target),
        may_improve(eval, in_time, target, complete, before, taken, after, best),
    ensures
        may_encode(eval, plan_at(after, best), target),
        ops(tree(before, taken as int)) <= u64::MAX ==> ops(tree(after, best as int)) <= ops(
            tree(before, taken as int),
        ),
{
    lemma_plan_extends(before, after, taken);
    lemma_tree_extends(before, after, taken as int);
    if best != taken {
        let config = default_config();
        let (start, gens, r) = choose|
            start: (u64, u64),
            gens: Seq<Generation>,
            r: SearchResult,
        | #[trigger]
            is_search(eval, in_time, before, taken, target, config, start, gens, after, r) && best
                == after_search(before, taken, after, r);
        law_search_does_not_lose(
            eval,
            in_time,
            before,
            taken,
            target,
            config,
            start,
            gens,
            after,
            r,
        );
        let (a, b) = choose|a: (u64, u64), b: (u64, u64)| #[trigger]
            may_find_judged(eval, after, taken, target, config.lambda, r, a, b);
        lemma_encoded_len(eval, plan_at(before, taken), target);
        law_exact_match_agrees(eval, after, r.best, target, config.lambda, b.1);
    }
}

/// What is kept has the samples of the target, and is not dearer than the input, as it was interned.
proof fn lemma_kept_samples<
    E: Fn(&Vec<Step>, Complex64) -> Complex64,
    S: Fn(&Vec<L>, &ConstTable) -> (Vec<L>, ConstTable, bool),
    K: Fn() -> bool,
>(
    eval: E,
    saturate: S,
    in_time: K,
    src: Seq<Node>,
    root: u32,
    c: Course,
    nodes: Seq<Node>,
    new_root: u32,
)
    requires
        is_minimization(eval, saturate, in_time, src, root, c, nodes, new_root),
    ensures
        may_have_samples(eval, tree(c.first, c.map[root as int] as int), c.target),
        may_have_samples(eval, tree(c.fourth, c.kept as int), c.target),
        ({
            let start = tree(c.first, c.map[root as int] as int);
            ops(start) <= u64::MAX ==> ops(tree(c.fourth, c.kept as int)) <= ops(start)
        }),
{
    let start = c.map[root as int];
    let (terms, values) = (c.out.0@, c.out.1.values());
    lemma_node_samples(eval, c.first, start, c.target);
    lemma_taken_samples(eval, c.first, start, c.target, terms, values, c.second, c.taken);
    lemma_best_samples(eval, in_time, c.target, c.out.2, c.second, c.taken, c.third, c.best);
    lemma_plan_extends(c.third, c.fourth, c.best);
    lemma_tree_extends(c.third, c.fourth, c.best as int);
    law_collapse_is_not_dearer(eval, tree(c.third, c.best as int), c.states);
    lemma_node_samples(eval, c.fourth, c.kept, c.target);
}

/// Minimization does not change what an expression computes at the sample points, whatever came back
/// from saturation and from the search: the result has the samples of the expression. The arena
/// holds no node twice, and neither its constants nor those of what is kept may be found within the
/// tolerance of each other.
pub proof fn law_minimize_keeps_samples<
    E: Fn(&Vec<Step>, Complex64) -> Complex64,
    S: Fn(&Vec<L>, &ConstTable) -> (Vec<L>, ConstTable, bool),
    K: Fn() -> bool,
>(
    eval: E,
    saturate: S,
    in_time: K,
    src: Seq<Node>,
    root: u32,
    c: Course,
    nodes: Seq<Node>,
    new_root: u32,
)
    requires
        arena_ok(src),
        root < src.len(),
        no_duplicates(src),
        separated(src),
        is_minimization(eval, saturate, in_time, src, root, c, nodes, new_root),
        well_separated(tree(c.fourth, c.kept as int), tree(c.fourth, c.kept as int)),
    ensures
        may_have_samples(eval, tree(src, root as int), c.target),
        may_have_samples(eval, tree(nodes, new_root as int), c.target),
{
    law_rehydrate_keeps_indices(src, c.first, c.map);
    lemma_kept_samples(eval, saturate, in_time, src, root, c, nodes, new_root);
    law_separated_plan_is_kept(c.fourth, c.kept, nodes, c.ids);
}

/// Minimization does not change what an expression of an interner computes at the sample points,
/// whatever came back from saturation and from the search, where the distance test says the same
/// each time.
pub proof fn law_minimize_keeps_interner_samples<
    E: Fn(&Vec<Step>, Complex64) -> Complex64,
    S: Fn(&Vec<L>, &ConstTable) -> (Vec<L>, ConstTable, bool),
    K: Fn() -> bool,
>(
    eval: E,
    saturate: S,
    in_time: K,
    src: Seq<Node>,
    root: u32,
    c: Course,
    nodes: Seq<Node>,
    new_root: u32,
)
    requires
        arena_ok(src),
        root < src.len(),
        no_duplicates(src),
        consts_apart(src),
        distances_agree(),
        is_minimization(eval, saturate, in_time, src, root, c, nodes, new_root),
    ensures
        may_have_samples(eval, tree(src, root as int), c.target),
        may_have_samples(eval, tree(nodes, new_root as int), c.target),
{
    law_constants_apart_are_separated(src);
    law_apart_is_well_separated(c.fourth, c.kept);
    law_minimize_keeps_samples(eval, saturate, in_time, src, root, c, nodes, new_root);
}

/// An evaluator that gives one value only for an expression at a point.
pub open spec fn repeats<E: Fn(&Vec<Step>, Complex64) -> Complex64>(eval: E) -> bool {
    forall|p: Seq<Step>, q: Seq<Step>, x: Complex64, y: Complex64, z: Complex64|
        plan_ok(p) && plan_ok(q) && step_tree(p, p.len() - 1) == step_tree(q, q.len() - 1)
            && #[trigger] may_give(eval, p, x, y) && #[trigger] may_give(eval, q, x, z) ==> y == z
}

/// With an evaluator that repeats, an expression has one string of samples only.
proof fn lemma_samples_repeat<E: Fn(&Vec<Step>, Complex64) -> Complex64>(
    eval: E,
    e: Expr,
    a: Seq<u8>,
    b: Seq<u8>,
)
    requires
        repeats(eval),
        may_have_samples(eval, e, a),
        may_have_samples(eval, e, b),
    ensures
        a == b,
{
    let p = choose|p: Seq<Step>| #[trigger]
        may_encode(eval, p, a) && plan_ok(p) && step_tree(p, p.len() - 1) == e;
    let q = choose|q: Seq<Step>| #[trigger]
        may_encode(eval, q, b) && plan_ok(q) && step_tree(q, q.len() - 1) == e;
    let s = choose|s: Seq<Complex64>| #[trigger] may_sample(eval, p, s) && a == samples_code(s);
    let t = choose|t: Seq<Complex64>| #[trigger] may_sample(eval, q, t) && b == samples_code(t);
    assert forall|k: int| 0 <= k < s.len() implies #[trigger] s[k] == t[k] by {
        assert(may_give(eval, p, points()[k], s[k]));
        assert(may_give(eval, q, points()[k], t[k]));
    }
    assert(s =~= t);
}

/// Minimization never changes the samples of an expression of an interner: whatever samples are
/// taken of the expression and of the result, they are the same bit for bit, with an evaluator and
/// a distance test that repeat.
pub proof fn law_minimize_never_changes_samples<
    E: Fn(&Vec<Step>, Complex64) -> Complex64,
    S: Fn(&Vec<L>, &ConstTable) -> (Vec<L>, ConstTable, bool),
    K: Fn() -> bool,
>(
    eval: E,
    saturate: S,
    in_time: K,
    src: Seq<Node>,
    root: u32,
    c: Course,
    nodes: Seq<Node>,
    new_root: u32,
    before: Seq<u8>,
    after: Seq<u8>,
)
    requires
        arena_ok(src),
        root < src.len(),
        no_duplicates(src),
        consts_apart(src),
        distances_agree(),
        repeats(eval),
        is_minimization(eval, saturate, in_time, src, root, c, nodes, new_root),
        may_have_samples(eval, tree(src, root as int), before),
        may_have_samples(eval, tree(nodes, new_root as int), after),
    ensures
        after == before,
{
    law_minimize_keeps_interner_samples(eval, saturate, in_time, src, root, c, nodes, new_root);
    lemma_samples_repeat(eval, tree(src, root as int), before, c.target);
    lemma_samples_repeat(eval, tree(nodes, new_root as int), after, c.target);
}

/// A saturation that gives the same back for the same terms and constants.
pub open spec fn saturation_repeats<S: Fn(&Vec<L>, &ConstTable) -> (Vec<L>, ConstTable, bool)>(
    saturate: S,
) -> bool {
    forall|
        t: Vec<L>,
        u: Vec<L>,
        a: ConstTable,
        b: ConstTable,
        x: (Vec<L>, ConstTable, bool),
        y: (Vec<L>, ConstTable, bool),
    |
        t@ == u@ && a.values() == b.values() && #[trigger] call_ensures(saturate, (&t, &a), x)
            && #[trigger] call_ensures(saturate, (&u, &b), y) ==> x.0@ == y.0@ && x.1.values()
            == y.1.values() && x.2 == y.2
}

/// The fingerprint of an expression, when its samples repeat.
pub open spec fn print_of<E: Fn(&Vec<Step>, Complex64) -> Complex64>(eval: E) -> spec_fn(Expr) -> u64 {
    |e: Expr| xxh3(choose|bytes: Seq<u8>| may_have_samples(eval, e, bytes))
}

/// With an evaluator that repeats, an expression has one fingerprint only.
proof fn lemma_prints_repeat<E: Fn(&Vec<Step>, Complex64) -> Complex64>(eval: E)
    requires
        repeats(eval),
    ensures
        determined(eval, print_of(eval)),
{
    assert forall|e: Expr, fp: u64| #[trigger] may_be_fingerprint(eval, e, fp) implies fp
        == print_of(eval)(e) by {
        let plan = choose|plan: Seq<Step>| #[trigger]
            may_hash(eval, plan, fp) && plan_ok(plan) && step_tree(plan, plan.len() - 1) == e;
        let bytes = choose|bytes: Seq<u8>| #[trigger]
            may_encode(eval, plan, bytes) && fp == xxh3(bytes);
        assert(may_have_samples(eval, e, bytes));
        let chosen = choose|bytes: Seq<u8>| may_have_samples(eval, e, bytes);
        lemma_samples_repeat(eval, e, bytes, chosen);
    }
}

/// Two minimizations agree up to the search, with an evaluator, a saturation and a distance test
/// that repeat.
proof fn lemma_minimizations_start_alike<
    E: Fn(&Vec<Step>, Complex64) -> Complex64,
    S: Fn(&Vec<L>, &ConstTable) -> (Vec<L>, ConstTable, bool),
    K: Fn() -> bool,
    J: Fn() -> bool,
>(
    eval: E,
    saturate: S,
    in_time: K,
    other_time: J,
    src: Seq<Node>,
    root: u32,
    c: Course,
    nodes: Seq<Node>,
    new_root: u32,
    d: Course,
    other_nodes: Seq<Node>,
    other_root: u32,
)
    requires
        is_minimization(eval, saturate, in_time, src, root, c, nodes, new_root),
        is_minimization(eval, saturate, other_time, src, root, d, other_nodes, other_root),
        distances_agree(),
        repeats(eval),
        saturation_repeats(saturate),
    ensures
        d.first == c.first,
        d.map == c.map,
        d.target == c.target,
        d.out.2 == c.out.2,
        d.second == c.second,
        d.taken == c.taken,
{
    let none = Seq::<Node>::empty();
    let start = c.map[root as int];
    law_interning_steps_repeats(none, arena_steps(src), c.first, c.map, d.first, d.map);
    lemma_node_samples(eval, c.first, start, c.target);
    lemma_node_samples(eval, c.first, start, d.target);
    lemma_samples_repeat(eval, tree(c.first, start as int), c.target, d.target);
    let plan = plan_at(c.first, start);
    let run = terms_run(plan, Seq::empty(), plan.len() as int);
    let (t, a) = choose|t: Vec<L>, a: ConstTable|
        (t@, a.values()) == run && #[trigger] call_ensures(saturate, (&t, &a), c.out);
    let (u, b) = choose|u: Vec<L>, b: ConstTable|
        (u@, b.values()) == run && #[trigger] call_ensures(saturate, (&u, &b), d.out);
    let (terms, values) = (c.out.0@, c.out.1.values());
    if usable(c.first, terms, values) {
        let steps = term_steps(terms, values);
        let i = choose|ids: Seq<u32>|
            ids.len() > 0 && ids.last() < c.second.len() && #[trigger] steps_interned(
                c.first,
                steps,
                c.second,
                ids,
            ) && may_take(eval, c.second, start, c.target, ids.last(), c.taken);
        let j = choose|ids: Seq<u32>|
            ids.len() > 0 && ids.last() < d.second.len() && #[trigger] steps_interned(
                c.first,
                steps,
                d.second,
                ids,
            ) && may_take(eval, d.second, start, c.target, ids.last(), d.taken);
        law_interning_steps_repeats(c.first, steps, c.second, i, d.second, j);
        let id = i.last();
        let fits = is_affordable(tree(c.second, id as int), tree(c.second, start as int));
        let x = choose|bytes: Seq<u8>| #[trigger]
            may_encode(eval, plan_at(c.second, id), bytes) && c.taken == (if fits && bytes
                == c.target {
                id
            } else {
                start
            });
        let y = choose|bytes: Seq<u8>| #[trigger]
            may_encode(eval, plan_at(c.second, id), bytes) && d.taken == (if fits && bytes
                == c.target {
                id
            } else {
                start
            });
        lemma_node_samples(eval, c.second, id, x);
        lemma_node_samples(eval, c.second, id, y);
        lemma_samples_repeat(eval, tree(c.second, id as int), x, y);
    }
}

/// After complete saturation the search is skipped, so that the result depends on neither the time
/// nor chance: two minimizations of the same expression lead to the same arena and the same root,
/// whatever their clocks say, with an evaluator, a saturation and a distance test that repeat, and
/// as long as there is room for the collapse.
pub proof fn law_complete_minimization_repeats<
    E: Fn(&Vec<Step>, Complex64) -> Complex64,
    S: Fn(&Vec<L>, &ConstTable) -> (Vec<L>, ConstTable, bool),
    K: Fn() -> bool,
    J: Fn() -> bool,
>(
    eval: E,
    saturate: S,
    in_time: K,
    other_time: J,
    src: Seq<Node>,
    root: u32,
    c: Course,
    nodes: Seq<Node>,
    new_root: u32,
    d: Course,
    other_nodes: Seq<Node>,
    other_root: u32,
)
    requires
        is_minimization(eval, saturate, in_time, src, root, c, nodes, new_root),
        is_minimization(eval, saturate, other_time, src, root, d, other_nodes, other_root),
        c.out.2,
        distances_agree(),
        repeats(eval),
        saturation_repeats(saturate),
        !full(c.fourth, c.last),
        !full(d.fourth, d.last),
    ensures
        other_nodes == nodes,
        other_root == new_root,
{
    lemma_minimizations_start_alike(
        eval,
        saturate,
        in_time,
        other_time,
        src,
        root,
        c,
        nodes,
        new_root,
        d,
        other_nodes,
        other_root,
    );
    lemma_prints_repeat(eval);
    law_collapse_repeats(
        eval,
        tree(c.third, c.best as int),
        COLLAPSE_PASSES,
        c.states,
        c.fourth,
        c.last,
        d.states,
        d.fourth,
        d.last,
        print_of(eval),
    );
    let x = choose|bytes: Seq<u8>| #[trigger]
        may_encode(eval, plan_at(c.fourth, c.last), bytes) && c.kept == (if bytes == c.target {
            c.last
        } else {
            c.best
        });
    let y = choose|bytes: Seq<u8>| #[trigger]
        may_encode(eval, plan_at(d.fourth, d.last), bytes) && d.kept == (if bytes == c.target {
            d.last
        } else {
            c.best
        });
    lemma_node_samples(eval, c.fourth, c.last, x);
    lemma_node_samples(eval, d.fourth, d.last, y);
    lemma_samples_repeat(eval, tree(c.fourth, c.last as int), x, y);
    lemma_tree_extends(c.third, c.fourth, c.best as int);
    lemma_tree_extends(c.third, d.fourth, c.best as int);
    law_same_expression_same_plan(c.fourth, c.kept, d.fourth, d.kept);
    law_interning_steps_repeats(
        Seq::empty(),
        plan_at(c.fourth, c.kept),
        nodes,
        c.ids,
        other_nodes,
        d.ids,
    );
}

/// Minimizes the expression rooted at `root`. It is interned anew and handed to `saturate`, whose
/// extraction is taken when it has the same samples and is not dearer. Unless saturation was
/// complete, a search follows as long as `in_time` says so, and its outcome is taken when it has the
/// same samples and is cheaper. In the end equivalent subexpressions are collapsed; the outcome is
/// sampled once more, and not taken when its samples differ. A fresh arena with what is kept alone,
/// the index of its root, and the number of its operations are returned.
pub fn minimize_expr<
    E: Fn(&Vec<Step>, Complex64) -> Complex64 + Sync,
    S: Fn(&Vec<L>, &ConstTable) -> (Vec<L>, ConstTable, bool),
    K: Fn() -> bool,
>(expr: &Arena, root: u32, eval: &E, saturate: &S, in_time: &K) -> (r: (Arena, u32, u64))
    requires
        arena_ok(expr.nodes@),
        root < expr.nodes@.len(),
        ops(tree(expr.nodes@, root as int)) <= u64::MAX,
        evaluator(*eval),
        forall|terms: &Vec<L>, consts: &ConstTable|
            terms_ok(terms@, consts.values()) ==> #[trigger] call_requires(
                *saturate,
                (terms, consts),
            ),
        call_requires(*in_time, ()),
    ensures
        arena_ok(r.0.nodes@),
        no_duplicates(r.0.nodes@),
        r.1 < r.0.nodes@.len(),
        forall|n: u32|
            n < r.0.nodes@.len() ==> #[trigger] reaches(r.0.nodes@, r.1 as int, n as int),
        r.2 == ops(tree(r.0.nodes@, r.1 as int)),
        r.2 <= ops(tree(expr.nodes@, root as int)),
        exists|start: Expr, target: Seq<u8>, kept: Expr, plan: Seq<Step>, ids: Seq<u32>|
            (no_duplicates(expr.nodes@) && separated(expr.nodes@) ==> start == tree(
                expr.nodes@,
                root as int,
            )) && stands_for(start, tree(expr.nodes@, root as int)) && #[trigger] may_have_samples(
                *eval,
                start,
                target,
            ) && #[trigger] may_have_samples(*eval, kept, target) && plan_ok(plan) && step_tree(
                plan,
                plan.len() - 1,
            ) == kept && ids.len() > 0 && r.1 == ids.last() && #[trigger] steps_interned(
                Seq::empty(),
                plan,
                r.0.nodes@,
                ids,
            ) && stands_for(tree(r.0.nodes@, r.1 as int), kept),
        exists|c: Course| #[trigger]
            is_minimization(
                *eval,
                *saturate,
                *in_time,
                expr.nodes@,
                root,
                c,
                r.0.nodes@,
                r.1,
            ),
{
    let ghost input = tree(expr.nodes@, root as int);
    let (mut interner, map) = rehydrate(expr);
    let first = map[root as usize];
    let ghost start = interner.expr(first);
    let ghost nodes1 = interner.nodes();
    proof {
        interner.lemma_wf();
        lemma_stands_for_ops(start, input);
        lemma_post_order(nodes1, first);
    }
    let target = sample_bytes(&interner, first, eval);
    let mut consts = ConstTable::new();
    let terms = arena_to_recexpr(&interner, first, &mut consts);
    let out = saturate(&terms, &consts);
    assert(may_saturate(*saturate, nodes1, first, out));
    let taken = accept_extraction(&mut interner, first, &target, &out.0, &out.1, eval);
    let ghost nodes2 = interner.nodes();
    proof {
        interner.lemma_wf();
        let (terms, values) = (out.0@, out.1.values());
        lemma_taken_samples(*eval, nodes1, first, target@, terms, values, nodes2, taken);
    }
    let best = improve(&mut interner, taken, &target, out.2, eval, in_time);
    let ghost nodes3 = interner.nodes();
    proof {
        interner.lemma_wf();
        lemma_best_samples(*eval, *in_time, target@, out.2, nodes2, taken, nodes3, best);
    }
    let last = collapse_equivalent_subtrees(&mut interner, best, COLLAPSE_PASSES, eval);
    let ghost states = choose|states: Seq<Progress>| #[trigger]
        is_collapse(
            *eval,
            tree(nodes3, best as int),
            states,
            COLLAPSE_PASSES,
            interner.nodes(),
            last,
        ) && interner.expr(last) == states.last().0;
    let ghost nodes4 = interner.nodes();
    let kept = keep(&interner, best, last, &target, eval);
    let (arena, new_root) = extract_minimal_arena(&interner, kept);
    proof {
        interner.lemma_wf();
        let plan = plan_at(nodes4, kept);
        let ids = choose|ids: Seq<u32>|
            ids.len() > 0 && new_root == ids.last() && #[trigger] steps_interned(
                Seq::empty(),
                plan,
                arena.nodes@,
                ids,
            );
        let c = Course {
            first: nodes1,
            map: map@,
            target: target@,
            out,
            second: nodes2,
            taken,
            third: nodes3,
            best,
            states,
            fourth: nodes4,
            last,
            kept,
            ids,
        };
        lemma_stands_for_ops(tree(arena.nodes@, new_root as int), interner.expr(kept));
        assert(is_minimization(
            *eval,
            *saturate,
            *in_time,
            expr.nodes@,
            root,
            c,
            arena.nodes@,
            new_root,
        ));
        lemma_kept_samples(
            *eval,
            *saturate,
            *in_time,
            expr.nodes@,
            root,
            c,
            arena.nodes@,
            new_root,
        );
        law_plan_denotes(nodes4, kept);
        if no_duplicates(expr.nodes@) && separated(expr.nodes@) {
            law_rehydrate_keeps_indices(expr.nodes@, nodes1, map@);
        }
        assert(steps_interned(Seq::empty(), plan, arena.nodes@, ids));
        assert(may_have_samples(*eval, start, target@));
        assert(may_have_samples(*eval, interner.expr(kept), target@));
    }
    let count = op_count(&interner, kept);
    (arena, new_root, count)
}

/// Searches from `taken`, unless saturation was complete or the time is up, and takes the outcome
/// when it is an exact match and cheaper.
fn improve<E: Fn(&Vec<Step>, Complex64) -> Complex64 + Sync, K: Fn() -> bool>(
    interner: &mut Interner,
    taken: u32,
    target: &Vec<u8>,
    complete: bool,
    eval: &E,
    in_time: &K,
) -> (best: u32)
    requires
        old(interner).wf(),
        taken < old(interner).nodes().len(),
        ops(old(interner).expr(taken)) <= u64::MAX,
        evaluator(*eval),
        call_requires(*in_time, ()),
    ensures
        final(interner).wf(),
        extends(old(interner).nodes(), final(interner).nodes()),
        best < final(interner).nodes().len(),
        may_improve(
            *eval,
            *in_time,
            target@,
            complete,
            old(interner).nodes(),
            taken,
            final(interner).nodes(),
            best,
        ),
        consts_apart(old(interner).nodes()) ==> consts_apart(final(interner).nodes()),
{
    let ghost before = interner.nodes();
    if complete || !in_time() {
        return taken;
    }
    let config = SearchConfig::default();
    let result = search(interner, taken, target, &config, eval, in_time);
    proof {
        interner.lemma_wf();
        lemma_tree_extends(before, interner.nodes(), taken as int);
    }
    let cost = op_count(interner, taken);
    let count = capped_op_count(interner, result.best);
    let best = if check_takes_over(&result, cost, config.lambda) && count < u64::MAX && count
        <= cost {
        result.best
    } else {
        taken
    };
    assert(best == after_search(before, taken, interner.nodes(), result));
    best
}

/// The outcome of a collapse when it has the samples of the target, and otherwise the expression
/// before it.
fn keep<E: Fn(&Vec<Step>, Complex64) -> Complex64>(
    interner: &Interner,
    best: u32,
    last: u32,
    target: &Vec<u8>,
    eval: &E,
) -> (kept: u32)
    requires
        interner.wf(),
        best < interner.nodes().len(),
        last < interner.nodes().len(),
        evaluator(*eval),
    ensures
        kept == best || kept == last,
        may_keep(*eval, target@, interner.nodes(), best, last, kept),
{
    let bytes = sample_bytes(interner, last, eval);
    assert(may_encode(*eval, plan_at(interner.nodes(), last), bytes@));
    if check_same(&bytes, target) {
        last
    } else {
        best
    }
}

/// Expressions that may have the same samples have the same value.
pub open spec fn samples_faithful<E: Fn(&Vec<Step>, Complex64) -> Complex64, V>(
    eval: E,
    val: spec_fn(Expr) -> V,
) -> bool {
    forall|a: Expr, b: Expr, bytes: Seq<u8>| #[trigger]
        may_have_samples(eval, a, bytes) && #[trigger] may_have_samples(eval, b, bytes) ==> val(a)
            == val(b)
}

/// Minimization keeps the value of an expression of an interner, whatever came back from saturation
/// and from the search, as long as expressions with the same samples have the same value, and where
/// the distance test says the same each time.
pub proof fn law_minimize_keeps_value<
    E: Fn(&Vec<Step>, Complex64) -> Complex64,
    S: Fn(&Vec<L>, &ConstTable) -> (Vec<L>, ConstTable, bool),
    K: Fn() -> bool,
    V,
>(
    eval: E,
    saturate: S,
    in_time: K,
    src: Seq<Node>,
    root: u32,
    c: Course,
    nodes: Seq<Node>,
    new_root: u32,
    val: spec_fn(Expr) -> V,
)
    requires
        arena_ok(src),
        root < src.len(),
        no_duplicates(src),
        consts_apart(src),
        distances_agree(),
        is_minimization(eval, saturate, in_time, src, root, c, nodes, new_root),
        samples_faithful(eval, val),
    ensures
        val(tree(nodes, new_root as int)) == val(tree(src, root as int)),
{
    law_minimize_keeps_interner_samples(eval, saturate, in_time, src, root, c, nodes, new_root);
}

/// The stages of a minimization only make an expression cheaper, and the result has as many
/// operations as what is kept.
proof fn lemma_stages_descend<
    E: Fn(&Vec<Step>, Complex64) -> Complex64,
    S: Fn(&Vec<L>, &ConstTable) -> (Vec<L>, ConstTable, bool),
    K: Fn() -> bool,
>(
    eval: E,
    saturate: S,
    in_time: K,
    src: Seq<Node>,
    root: u32,
    c: Course,
    nodes: Seq<Node>,
    new_root: u32,
)
    requires
        is_minimization(eval, saturate, in_time, src, root, c, nodes, new_root),
        nodes.len() <= NIL,
    ensures
        ops(tree(nodes, new_root as int)) == ops(tree(c.fourth, c.kept as int)),
        ops(tree(c.fourth, c.last as int)) <= ops(tree(c.third, c.best as int)),
        ops(tree(nodes, new_root as int)) <= ops(tree(c.third, c.best as int)),
        ops(tree(c.second, c.taken as int)) <= u64::MAX ==> ops(tree(c.third, c.best as int))
            <= ops(tree(c.second, c.taken as int)),
{
    let plan = plan_at(c.fourth, c.kept);
    law_plan_denotes(c.fourth, c.kept);
    law_interned_steps_stand(Seq::empty(), plan, nodes, c.ids);
    let last = plan.len() - 1;
    assert(stands_for(tree(nodes, c.ids[last] as int), step_tree(plan, last)));
    lemma_stands_for_ops(tree(nodes, new_root as int), tree(c.fourth, c.kept as int));
    lemma_tree_extends(c.third, c.fourth, c.best as int);
    law_collapse_is_not_dearer(eval, tree(c.third, c.best as int), c.states);
    let start = c.map[root as int];
    let (terms, values) = (c.out.0@, c.out.1.values());
    lemma_taken_samples(eval, c.first, start, c.target, terms, values, c.second, c.taken);
    lemma_best_samples(eval, in_time, c.target, c.out.2, c.second, c.taken, c.third, c.best);
}

/// Minimization does not throw away what the collapse finds: when the outcome of the collapse can
/// only have the samples of the input, the result has as many operations as that outcome.
pub proof fn law_minimize_keeps_collapse<
    E: Fn(&Vec<Step>, Complex64) -> Complex64,
    S: Fn(&Vec<L>, &ConstTable) -> (Vec<L>, ConstTable, bool),
    K: Fn() -> bool,
>(
    eval: E,
    saturate: S,
    in_time: K,
    src: Seq<Node>,
    root: u32,
    c: Course,
    nodes: Seq<Node>,
    new_root: u32,
)
    requires
        is_minimization(eval, saturate, in_time, src, root, c, nodes, new_root),
        nodes.len() <= NIL,
        forall|bytes: Seq<u8>| #[trigger]
            may_have_samples(eval, c.states.last().0, bytes) ==> bytes == c.target,
    ensures
        ops(tree(nodes, new_root as int)) == ops(c.states.last().0),
{
    lemma_stages_descend(eval, saturate, in_time, src, root, c, nodes, new_root);
    assert forall|bytes: Seq<u8>| #[trigger] may_encode(
        eval,
        plan_at(c.fourth, c.last),
        bytes,
    ) implies bytes == c.target by {
        lemma_node_samples(eval, c.fourth, c.last, bytes);
    }
}

/// Samples that have the same fingerprint are the same.
pub open spec fn prints_tell_apart<E: Fn(&Vec<Step>, Complex64) -> Complex64>(eval: E) -> bool {
    forall|a: Expr, b: Expr, x: Seq<u8>, y: Seq<u8>| #[trigger]
        may_have_samples(eval, a, x) && #[trigger] may_have_samples(eval, b, y) && xxh3(x) == xxh3(
            y,
        ) ==> x == y
}

/// Minimization finds the parts that are worth as much as the whole: the result has no more
/// operations than any part, with the fingerprint of the whole, of what saturation and the search
/// left. This needs an evaluator that repeats and is determined by the operands, and fingerprints
/// that tell samples apart.
pub proof fn law_minimize_meets_equal_parts<
    E: Fn(&Vec<Step>, Complex64) -> Complex64,
    S: Fn(&Vec<L>, &ConstTable) -> (Vec<L>, ConstTable, bool),
    K: Fn() -> bool,
>(
    eval: E,
    saturate: S,
    in_time: K,
    src: Seq<Node>,
    root: u32,
    c: Course,
    nodes: Seq<Node>,
    new_root: u32,
    p: Expr,
)
    requires
        is_minimization(eval, saturate, in_time, src, root, c, nodes, new_root),
        nodes.len() <= NIL,
        !full(c.fourth, c.last),
        repeats(eval),
        congruent(print_of(eval)),
        prints_tell_apart(eval),
        part(tree(c.third, c.best as int), p),
        print_of(eval)(p) == print_of(eval)(tree(c.third, c.best as int)),
    ensures
        ops(tree(nodes, new_root as int)) <= ops(p),
{
    let print = print_of(eval);
    let left = tree(c.third, c.best as int);
    let end = c.states.last().0;
    lemma_prints_repeat(eval);
    law_collapse_meets_equal_parts(
        eval,
        left,
        c.states,
        COLLAPSE_PASSES,
        c.fourth,
        c.last,
        print,
        p,
    );
    law_collapse_keeps_print(eval, left, c.states, print);
    let start = c.map[root as int];
    let (terms, values) = (c.out.0@, c.out.1.values());
    lemma_taken_samples(eval, c.first, start, c.target, terms, values, c.second, c.taken);
    lemma_best_samples(eval, in_time, c.target, c.out.2, c.second, c.taken, c.third, c.best);
    lemma_node_samples(eval, c.third, c.best, c.target);
    assert forall|bytes: Seq<u8>| #[trigger] may_have_samples(eval, end, bytes) implies bytes
        == c.target by {
        lemma_print_of(eval, end, bytes);
        lemma_print_of(eval, left, c.target);
    }
    law_minimize_keeps_collapse(eval, saturate, in_time, src, root, c, nodes, new_root);
}

/// The same holds of the parts of the input when neither saturation nor the search changed it.
pub proof fn law_minimize_meets_equal_parts_of_input<
    E: Fn(&Vec<Step>, Complex64) -> Complex64,
    S: Fn(&Vec<L>, &ConstTable) -> (Vec<L>, ConstTable, bool),
    K: Fn() -> bool,
>(
    eval: E,
    saturate: S,
    in_time: K,
    src: Seq<Node>,
    root: u32,
    c: Course,
    nodes: Seq<Node>,
    new_root: u32,
    p: Expr,
)
    requires
        is_minimization(eval, saturate, in_time, src, root, c, nodes, new_root),
        nodes.len() <= NIL,
        !full(c.fourth, c.last),
        repeats(eval),
        congruent(print_of(eval)),
        prints_tell_apart(eval),
        tree(c.third, c.best as int) == tree(src, root as int),
        part(tree(src, root as int), p),
        print_of(eval)(p) == print_of(eval)(tree(src, root as int)),
    ensures
        ops(tree(nodes, new_root as int)) <= ops(p),
{
    law_minimize_meets_equal_parts(eval, saturate, in_time, src, root, c, nodes, new_root, p);
}

/// The fingerprint of an expression is the hash of its samples.
proof fn lemma_print_of<E: Fn(&Vec<Step>, Complex64) -> Complex64>(eval: E, e: Expr, bytes: Seq<u8>)
    requires
        repeats(eval),
        may_have_samples(eval, e, bytes),
    ensures
        print_of(eval)(e) == xxh3(bytes),
{
    let chosen = choose|bytes: Seq<u8>| may_have_samples(eval, e, bytes);
    lemma_samples_repeat(eval, e, bytes, chosen);
}

/// Minimization does not throw away what saturation extracts: when the extraction can be interned,
/// has no more operations than the input as it was interned, and can only have its samples, the
/// result has no more operations than the extraction.
pub proof fn law_minimize_keeps_extraction<
    E: Fn(&Vec<Step>, Complex64) -> Complex64,
    S: Fn(&Vec<L>, &ConstTable) -> (Vec<L>, ConstTable, bool),
    K: Fn() -> bool,
>(
    eval: E,
    saturate: S,
    in_time: K,
    src: Seq<Node>,
    root: u32,
    c: Course,
    nodes: Seq<Node>,
    new_root: u32,
)
    requires
        is_minimization(eval, saturate, in_time, src, root, c, nodes, new_root),
        nodes.len() <= NIL,
        terms_ok(c.out.0@, c.out.1.values()),
        c.first.len() + c.out.0@.len() <= NIL,
        ops(terms_tree(c.out.0@, c.out.1.values())) < u64::MAX,
        ops(terms_tree(c.out.0@, c.out.1.values())) <= ops(
            tree(c.first, c.map[root as int] as int),
        ),
        forall|t: Expr, bytes: Seq<u8>|
            stands_for(t, terms_tree(c.out.0@, c.out.1.values())) && #[trigger] may_have_samples(
                eval,
                t,
                bytes,
            ) ==> bytes == c.target,
    ensures
        ops(tree(nodes, new_root as int)) <= ops(terms_tree(c.out.0@, c.out.1.values())),
{
    let start = c.map[root as int];
    let (terms, values) = (c.out.0@, c.out.1.values());
    let steps = term_steps(terms, values);
    lemma_stages_descend(eval, saturate, in_time, src, root, c, nodes, new_root);
    let ids = choose|ids: Seq<u32>|
        ids.len() > 0 && ids.last() < c.second.len() && #[trigger] steps_interned(
            c.first,
            steps,
            c.second,
            ids,
        ) && may_take(eval, c.second, start, c.target, ids.last(), c.taken);
    law_interned_steps_stand(c.first, steps, c.second, ids);
    let id = ids.last();
    let t = tree(c.second, id as int);
    assert(stands_for(tree(c.second, ids[ids.len() - 1] as int), step_tree(steps, ids.len() - 1)));
    lemma_stands_for_ops(t, terms_tree(terms, values));
    lemma_tree_extends(c.first, c.second, start as int);
    assert forall|bytes: Seq<u8>| #[trigger] may_encode(
        eval,
        plan_at(c.second, id),
        bytes,
    ) implies bytes == c.target by {
        lemma_node_samples(eval, c.second, id, bytes);
    }
    assert(c.taken == id);
}

/// Minimization does not throw away what the search finds: when saturation was not complete, there
/// is time, and whatever a search finds is an exact match, fitter than an exact match with the
/// operations of what was extracted, and has no more operations than that and than `bound`, the
/// result has no more than `bound`.
pub proof fn law_minimize_keeps_search<
    E: Fn(&Vec<Step>, Complex64) -> Complex64,
    S: Fn(&Vec<L>, &ConstTable) -> (Vec<L>, ConstTable, bool),
    K: Fn() -> bool,
>(
    eval: E,
    saturate: S,
    in_time: K,
    src: Seq<Node>,
    root: u32,
    c: Course,
    nodes: Seq<Node>,
    new_root: u32,
    bound: nat,
)
    requires
        is_minimization(eval, saturate, in_time, src, root, c, nodes, new_root),
        nodes.len() <= NIL,
        !c.out.2,
        !call_ensures(in_time, (), false),
        forall|start: (u64, u64), gens: Seq<Generation>, r: SearchResult| #[trigger]
            is_search(
                eval,
                in_time,
                c.second,
                c.taken,
                c.target,
                default_config(),
                start,
                gens,
                c.third,
                r,
            ) ==> {
                let cost = ops(tree(c.second, c.taken as int));
                let found = ops(tree(c.third, r.best as int));
                &&& r.exact_match_found
                &&& float_lt(
                    negated(product(float_of(capped(cost)), default_config().lambda)),
                    r.best_fitness,
                )
                &&& found <= cost < u64::MAX
                &&& found <= bound
            },
    ensures
        ops(tree(nodes, new_root as int)) <= bound,
{
    lemma_stages_descend(eval, saturate, in_time, src, root, c, nodes, new_root);
}

} // verus!
