//! A population search for cheaper expressions with the same values at the sample points.

use vstd::prelude::*;

use crate::arena::{
    arena_ok, consts_apart, extends, lemma_tree_extends, no_duplicates, node_ok, prim_at, prim_step, tree,
    Interner, Node, Op, NIL,
};
use crate::chance::{draw_below, draw_from, draw_unit, toss};
use crate::complex::Complex64;
use crate::curve::{difference_exact, product_exact, whole_exact};
use crate::expr::{ops, Expr};
use crate::fingerprint::{evaluator, lemma_encoded_len, may_encode, sample_bytes};
use crate::float::{
    float_eq, float_from, float_le, float_lt, float_of, get_minus, get_product, get_sum, is_nan, lt, minus, negate,
    negated, product, sum, ONE_BITS,
};
use crate::graph::{lemma_reaches_below, met, reaches, search_order};
use crate::parallel::map_indices;
use crate::plan::{lemma_plan_extends, make_plan, plan_at, plan_ok, step_ok, step_tree, Step};
use crate::value::{is_arithmetic, sums_associate, sums_cancel, sums_commute, Numbers};

verus! {

/// `n`, or the largest `u64` if that is less.
pub open spec fn capped(n: nat) -> u64 {
    if n <= u64::MAX {
        n as u64
    } else {
        u64::MAX
    }
}

/// The number of leaves and primitives of the expression that a plan evaluates, each counted as
/// often as it occurs, or the largest `u64` if that is less.
fn plan_ops(plan: &Vec<Step>) -> (r: u64)
    requires
        plan_ok(plan@),
    ensures
        r == capped(ops(step_tree(plan@, plan@.len() - 1))),
{
    let mut counts: Vec<u64> = Vec::new();
    let mut k: usize = 0;
    while k < plan.len()
        invariant
            plan_ok(plan@),
            k <= plan@.len(),
            counts@.len() == k,
            forall|m: int| 0 <= m < k ==> #[trigger] counts@[m] == capped(ops(step_tree(plan@, m))),
        decreases plan@.len() - k,
    {
        assert(step_ok(plan@, k as int));
        let count: u64 = match plan[k] {
            Step::Prim(i, j) => counts[i].saturating_add(counts[j]).saturating_add(1),
            _ => 1,
        };
        counts.push(count);
        k += 1;
    }
    counts[counts.len() - 1]
}

/// The number of leaves and primitives of an expression, each counted as often as it occurs, or
/// the largest `u64` if that is less.
pub fn capped_op_count(interner: &Interner, node: u32) -> (r: u64)
    requires
        interner.wf(),
        node < interner.nodes().len(),
    ensures
        r == capped(ops(interner.expr(node))),
{
    let plan = make_plan(interner, node);
    plan_ops(&plan)
}

/// The number of leaves and primitives of an expression, each counted as often as it occurs.
pub fn op_count(interner: &Interner, node: u32) -> (r: u64)
    requires
        interner.wf(),
        node < interner.nodes().len(),
        ops(interner.expr(node)) <= u64::MAX,
    ensures
        r == ops(interner.expr(node)),
{
    capped_op_count(interner, node)
}

/// The settings of a search.
pub struct SearchConfig {
    pub population_size: usize,
    pub elite_count: usize,
    /// The weight of the number of operations in the fitness.
    pub lambda: u64,
    pub mutation_rate: u64,
    pub crossover_rate: u64,
}

/// Two hundred candidates, of which twenty are kept, the weight `0.05`, and the rates `0.7` and
/// `0.3`.
pub open spec fn default_config() -> SearchConfig {
    SearchConfig {
        population_size: 200,
        elite_count: 20,
        lambda: 0x3fa9_9999_9999_999a,
        mutation_rate: 0x3fe6_6666_6666_6666,
        crossover_rate: 0x3fd3_3333_3333_3333,
    }
}

impl Default for SearchConfig {
    fn default() -> (r: Self)
        ensures
            r == default_config(),
    {
        SearchConfig {
            population_size: 200,
            elite_count: 20,
            lambda: 0x3fa9_9999_9999_999a,
            mutation_rate: 0x3fe6_6666_6666_6666,
            crossover_rate: 0x3fd3_3333_3333_3333,
        }
    }
}

/// At how many of the first `n` places `a` and `b` differ.
pub open spec fn differences(a: Seq<u8>, b: Seq<u8>, n: int) -> nat
    decreases n,
{
    if n <= 0 {
        0
    } else {
        differences(a, b, n - 1) + if a[n - 1] != b[n - 1] {
            1nat
        } else {
            0nat
        }
    }
}

/// At how many of the places that both have `a` and `b` differ.
pub open spec fn distance(a: Seq<u8>, b: Seq<u8>) -> nat {
    differences(
        a,
        b,
        if a.len() <= b.len() {
            a.len() as int
        } else {
            b.len() as int
        },
    )
}

proof fn lemma_differences(a: Seq<u8>, b: Seq<u8>, n: int)
    requires
        0 <= n <= a.len(),
        n <= b.len(),
    ensures
        differences(a, b, n) <= n,
        differences(a, b, n) == 0 <==> forall|i: int| 0 <= i < n ==> #[trigger] a[i] == b[i],
        differences(a, b, n) == differences(b, a, n),
    decreases n,
{
    if n > 0 {
        lemma_differences(a, b, n - 1);
        if differences(a, b, n) == 0 {
            assert forall|i: int| 0 <= i < n implies #[trigger] a[i] == b[i] by {
                if i == n - 1 {
                } else {
                    assert(a[i] == b[i]);
                }
            }
        } else if forall|i: int| 0 <= i < n ==> #[trigger] a[i] == b[i] {
            assert(a[n - 1] == b[n - 1]);
        }
    }
}

/// Strings of bytes of the same length have distance zero exactly when they are equal, and the
/// distance is the same both ways.
pub proof fn law_distance(a: Seq<u8>, b: Seq<u8>)
    requires
        a.len() == b.len(),
    ensures
        distance(a, b) == 0 <==> a == b,
        distance(a, b) == distance(b, a),
        distance(a, b) <= a.len(),
{
    lemma_differences(a, b, a.len() as int);
    if distance(a, b) == 0 {
        assert(a =~= b);
    }
}

/// Only the first `n` places count.
proof fn lemma_differences_prefix(a: Seq<u8>, b: Seq<u8>, c: Seq<u8>, d: Seq<u8>, n: int)
    requires
        0 <= n <= a.len(),
        n <= b.len(),
        n <= c.len(),
        n <= d.len(),
        forall|i: int| 0 <= i < n ==> #[trigger] a[i] == c[i],
        forall|i: int| 0 <= i < n ==> #[trigger] b[i] == d[i],
    ensures
        differences(a, b, n) == differences(c, d, n),
    decreases n,
{
    if n > 0 {
        lemma_differences_prefix(a, b, c, d, n - 1);
        assert(a[n - 1] == c[n - 1] && b[n - 1] == d[n - 1]);
    }
}

/// Each place counts once: one more place adds one to the distance when the bytes differ there, and
/// nothing when they do not. Places that only one of the two has do not count.
pub proof fn law_distance_counts(a: Seq<u8>, b: Seq<u8>, x: u8, y: u8, more: Seq<u8>)
    requires
        a.len() == b.len(),
    ensures
        a.len() == 0 ==> distance(a, b) == 0,
        x == y ==> distance(a.push(x), b.push(y)) == distance(a, b),
        x != y ==> distance(a.push(x), b.push(y)) == distance(a, b) + 1,
        distance(a + more, b) == distance(a, b),
        distance(a, b + more) == distance(a, b),
{
    let n = a.len() as int;
    lemma_differences_prefix(a.push(x), b.push(y), a, b, n);
    lemma_differences_prefix(a + more, b, a, b, n);
    lemma_differences_prefix(a, b + more, a, b, n);
}

/// At how many of the places that both have `a` and `b` differ.
pub fn fingerprint_distance(a: &Vec<u8>, b: &Vec<u8>) -> (r: u64)
    ensures
        r == distance(a@, b@),
{
    let n = if a.len() <= b.len() {
        a.len()
    } else {
        b.len()
    };
    let mut count: u64 = 0;
    let mut i: usize = 0;
    while i < n
        invariant
            i <= n <= a@.len(),
            n <= b@.len(),
            count == differences(a@, b@, i as int),
            count <= i,
        decreases n - i,
    {
        if a[i] != b[i] {
            count += 1;
        }
        i += 1;
    }
    count
}

/// `-dist - lambda * cost`.
pub open spec fn score(dist: u64, cost: u64, lambda: u64) -> u64 {
    minus(negated(float_of(dist)), product(lambda, float_of(cost)))
}

/// The fitness of a candidate at the distance `dist` from the target that has `cost` operations.
pub fn get_score(dist: u64, cost: u64, lambda: u64) -> (r: u64)
    ensures
        r == score(dist, cost, lambda),
{
    get_minus(negate(float_from(dist)), get_product(lambda, float_from(cost)))
}

/// Where the machine computes exactly, the fitness is the negation of a sum: of the distance, and of
/// the number of operations times `lambda`. So the distance and the operations count against a
/// candidate.
pub proof fn law_score<V>(m: Numbers<V>, dist: u64, cost: u64, lambda: u64)
    requires
        is_arithmetic(m),
        whole_exact(m, dist),
        whole_exact(m, cost),
        (m.float)(negated(float_of(dist))) == (m.neg)((m.float)(float_of(dist))),
        product_exact(m, lambda, float_of(cost)),
        difference_exact(m, negated(float_of(dist)), product(lambda, float_of(cost))),
    ensures
        (m.add)(
            (m.add)(
                (m.float)(score(dist, cost, lambda)),
                (m.mul)((m.float)(lambda), (m.whole)(cost as int)),
            ),
            (m.whole)(dist as int),
        ) == m.zero(),
{
    let d = (m.whole)(dist as int);
    let c = (m.mul)((m.float)(lambda), (m.whole)(cost as int));
    let (nd, nc) = ((m.neg)(d), (m.neg)(c));
    assert(sums_cancel(m, nd, c) && sums_cancel(m, d, d) && sums_cancel(m, c, c));
    assert(sums_associate(m, nd, nc, c) && sums_commute(m, nc, c) && sums_commute(m, nd, d));
    assert(sums_cancel(m, nd, nd));
}

/// `j` is a distance from the target and a fitness that a candidate may have.
pub open spec fn may_judge<E: Fn(&Vec<Step>, Complex64) -> Complex64>(
    eval: E,
    nodes: Seq<Node>,
    candidate: u32,
    target: Seq<u8>,
    lambda: u64,
    j: (u64, u64),
) -> bool {
    exists|bytes: Seq<u8>| #[trigger]
        may_encode(eval, plan_at(nodes, candidate), bytes) && j.0 == distance(bytes, target)
            && j.1 == score(j.0, capped(ops(tree(nodes, candidate as int))), lambda)
}

/// The distance of a candidate from the target, and its fitness.
pub fn judge<E: Fn(&Vec<Step>, Complex64) -> Complex64>(
    interner: &Interner,
    candidate: u32,
    target: &Vec<u8>,
    lambda: u64,
    eval: &E,
) -> (j: (u64, u64))
    requires
        interner.wf(),
        candidate < interner.nodes().len(),
        evaluator(*eval),
    ensures
        may_judge(*eval, interner.nodes(), candidate, target@, lambda, j),
{
    let bytes = sample_bytes(interner, candidate, eval);
    let dist = fingerprint_distance(&bytes, target);
    let cost = capped_op_count(interner, candidate);
    (dist, get_score(dist, cost, lambda))
}

/// `fit` is a fitness that a candidate may have.
pub open spec fn may_be_fitness<E: Fn(&Vec<Step>, Complex64) -> Complex64>(
    eval: E,
    nodes: Seq<Node>,
    candidate: u32,
    target: Seq<u8>,
    lambda: u64,
    fit: u64,
) -> bool {
    exists|dist: u64| #[trigger] may_judge(eval, nodes, candidate, target, lambda, (dist, fit))
}

/// The fitness of a candidate.
pub fn fitness<E: Fn(&Vec<Step>, Complex64) -> Complex64>(
    interner: &Interner,
    candidate: u32,
    target: &Vec<u8>,
    lambda: u64,
    eval: &E,
) -> (r: u64)
    requires
        interner.wf(),
        candidate < interner.nodes().len(),
        evaluator(*eval),
    ensures
        may_be_fitness(*eval, interner.nodes(), candidate, target@, lambda, r),
{
    let j = judge(interner, candidate, target, lambda, eval);
    assert(may_judge(*eval, interner.nodes(), candidate, target@, lambda, (j.0, j.1)));
    j.1
}

/// The nodes of the expression rooted at `root`, each once, from the root down.
pub fn subtree_nodes(interner: &Interner, root: u32) -> (r: Vec<u32>)
    requires
        interner.wf(),
        root < interner.nodes().len(),
    ensures
        r@ == met(interner.nodes(), seq![root], Seq::empty()),
        r@.no_duplicates(),
        forall|x: u32|
            r@.contains(x) <==> #[trigger] reaches(interner.nodes(), root as int, x as int),
{
    search_order(interner, root)
}

/// A way down an expression: the primitives on it, each with whether it goes on in the first
/// child.
pub type Way = Seq<(u32, bool)>;

/// The child of a primitive in which a way goes on.
pub open spec fn next_on(nodes: Seq<Node>, p: (u32, bool)) -> u32 {
    if p.1 {
        nodes[p.0 as int].a
    } else {
        nodes[p.0 as int].b
    }
}

/// `p` is a primitive with a direction.
pub open spec fn way_step_ok(nodes: Seq<Node>, p: (u32, bool)) -> bool {
    p.0 < nodes.len() && nodes[p.0 as int].op == Op::Prim
}

/// All steps of a way are primitives.
pub open spec fn way_ok(nodes: Seq<Node>, way: Way) -> bool {
    forall|i: int| 0 <= i < way.len() ==> way_step_ok(nodes, #[trigger] way[i])
}

/// The way leads from `root` to `target`.
pub open spec fn leads(nodes: Seq<Node>, root: u32, way: Way, target: u32) -> bool
    decreases way.len(),
{
    if way.len() == 0 {
        target == root
    } else {
        way[0].0 == root && way_step_ok(nodes, way[0]) && leads(
            nodes,
            next_on(nodes, way[0]),
            way.skip(1),
            target,
        )
    }
}

/// The expression at the start of a way, with `new` put in the place that the way leads to.
pub open spec fn grafted(nodes: Seq<Node>, way: Way, new: Expr) -> Expr
    decreases way.len(),
{
    if way.len() == 0 {
        new
    } else {
        let n = nodes[way[0].0 as int];
        let inner = grafted(nodes, way.skip(1), new);
        if way[0].1 {
            Expr::Prim(Box::new(inner), Box::new(tree(nodes, n.b as int)))
        } else {
            Expr::Prim(Box::new(tree(nodes, n.a as int)), Box::new(inner))
        }
    }
}

/// Putting back what was there gives the expression back.
pub proof fn law_graft_back(nodes: Seq<Node>, root: u32, way: Way, target: u32)
    requires
        arena_ok(nodes),
        root < nodes.len(),
        leads(nodes, root, way, target),
    ensures
        grafted(nodes, way, tree(nodes, target as int)) == tree(nodes, root as int),
        reaches(nodes, root as int, target as int),
    decreases way.len(),
{
    if way.len() > 0 {
        assert(node_ok(nodes, root as int));
        let n = nodes[root as int];
        let child = next_on(nodes, way[0]);
        law_graft_back(nodes, child, way.skip(1), target);
        assert(tree(nodes, root as int) == Expr::Prim(
            Box::new(tree(nodes, n.a as int)),
            Box::new(tree(nodes, n.b as int)),
        ));
    }
}

/// A way that leads somewhere is made of primitives, and no longer than its start allows.
proof fn lemma_leads(nodes: Seq<Node>, root: u32, way: Way, target: u32)
    requires
        arena_ok(nodes),
        root < nodes.len(),
        leads(nodes, root, way, target),
    ensures
        way_ok(nodes, way),
        target < nodes.len(),
        way.len() <= root,
    decreases way.len(),
{
    if way.len() > 0 {
        assert(node_ok(nodes, root as int));
        let rest = way.skip(1);
        lemma_leads(nodes, next_on(nodes, way[0]), rest, target);
        assert forall|i: int| 0 <= i < way.len() implies way_step_ok(nodes, #[trigger] way[i]) by {
            if i > 0 {
                assert(rest[i - 1] == way[i]);
            }
        }
    }
}

/// The way down from `root`, and where it leads, when the tosses decide at each primitive whether to
/// stop, and in which child to go on. The way ends at a leaf, at a toss that says so, and when the
/// tosses run out.
pub open spec fn walked(nodes: Seq<Node>, root: u32, tosses: Seq<(bool, bool)>) -> (Way, u32)
    decreases tosses.len(),
{
    if nodes[root as int].op != Op::Prim || tosses.len() == 0 || tosses[0].0 {
        (Seq::empty(), root)
    } else {
        let p = (root, tosses[0].1);
        let (way, target) = walked(nodes, next_on(nodes, p), tosses.skip(1));
        (seq![p] + way, target)
    }
}

/// A walk leads from its start to its target.
proof fn lemma_walked(nodes: Seq<Node>, root: u32, tosses: Seq<(bool, bool)>)
    requires
        arena_ok(nodes),
        root < nodes.len(),
    ensures
        leads(nodes, root, walked(nodes, root, tosses).0, walked(nodes, root, tosses).1),
    decreases tosses.len(),
{
    if nodes[root as int].op == Op::Prim && tosses.len() > 0 && !tosses[0].0 {
        let p = (root, tosses[0].1);
        let (way, target) = walked(nodes, root, tosses);
        assert(node_ok(nodes, root as int));
        lemma_walked(nodes, next_on(nodes, p), tosses.skip(1));
        assert(way.skip(1) =~= walked(nodes, next_on(nodes, p), tosses.skip(1)).0);
        assert(way[0] == p);
    }
}

/// The way down the expression rooted at `root` that the tosses decide, and where it leads.
pub fn path_for(interner: &Interner, root: u32, tosses: &Vec<(bool, bool)>) -> (r: (
    Vec<(u32, bool)>,
    u32,
))
    requires
        interner.wf(),
        root < interner.nodes().len(),
    ensures
        r.0@ == walked(interner.nodes(), root, tosses@).0,
        r.1 == walked(interner.nodes(), root, tosses@).1,
        leads(interner.nodes(), root, r.0@, r.1),
        way_ok(interner.nodes(), r.0@),
        r.0@.len() <= root,
        r.1 < interner.nodes().len(),
{
    let ghost nodes = interner.nodes();
    let ghost whole = walked(nodes, root, tosses@);
    proof {
        interner.lemma_wf();
        lemma_walked(nodes, root, tosses@);
        assert(tosses@.skip(0) =~= tosses@);
    }
    let mut path: Vec<(u32, bool)> = Vec::new();
    let mut current = root;
    let mut k: usize = 0;
    assert(path@ + whole.0 =~= whole.0);
    while k < tosses.len() && interner.node(current).op == Op::Prim && !tosses[k].0
        invariant
            interner.wf(),
            nodes == interner.nodes(),
            arena_ok(nodes),
            current < nodes.len(),
            k <= tosses@.len(),
            whole == walked(nodes, root, tosses@),
            whole.0 == path@ + walked(nodes, current, tosses@.skip(k as int)).0,
            whole.1 == walked(nodes, current, tosses@.skip(k as int)).1,
        decreases tosses@.len() - k,
    {
        let n = *interner.node(current);
        let left = tosses[k].1;
        let ghost (held, rest) = (path@, tosses@.skip(k as int));
        proof {
            assert(node_ok(nodes, current as int));
            assert(rest[0] == tosses@[k as int]);
            assert(rest.skip(1) =~= tosses@.skip(k + 1));
        }
        path.push((current, left));
        current = if left {
            n.a
        } else {
            n.b
        };
        k += 1;
        assert(whole.0 =~= path@ + walked(nodes, current, tosses@.skip(k as int)).0);
    }
    proof {
        let rest = tosses@.skip(k as int);
        if k < tosses@.len() {
            assert(rest[0] == tosses@[k as int]);
        }
        assert(path@ + walked(nodes, current, rest).0 =~= path@);
        lemma_leads(nodes, root, path@, current);
    }
    (path, current)
}

/// Tosses for a way down from `root`: the last of them says to stop, or there are as many as a way
/// can have steps.
pub open spec fn enough(root: u32, tosses: Seq<(bool, bool)>) -> bool {
    tosses.len() == root || (tosses.len() > 0 && tosses.last().0)
}

/// A random way down the expression rooted at `root`: at each primitive a toss decides whether
/// to stop, and another in which child to go on.
pub fn random_path(interner: &Interner, root: u32) -> (r: (Vec<(u32, bool)>, u32))
    requires
        interner.wf(),
        root < interner.nodes().len(),
    ensures
        exists|tosses: Seq<(bool, bool)>|
            enough(root, tosses) && (r.0@, r.1) == #[trigger] walked(interner.nodes(), root, tosses),
        leads(interner.nodes(), root, r.0@, r.1),
        way_ok(interner.nodes(), r.0@),
        r.0@.len() <= root,
        r.1 < interner.nodes().len(),
{
    let mut tosses: Vec<(bool, bool)> = Vec::new();
    let mut stop = false;
    while tosses.len() < root as usize && !stop
        invariant
            tosses@.len() <= root,
            stop ==> tosses@.len() > 0 && tosses@.last().0,
        decreases root - tosses@.len(),
    {
        stop = toss();
        tosses.push((stop, toss()));
    }
    let r = path_for(interner, root, &tosses);
    assert((r.0@, r.1) == walked(interner.nodes(), root, tosses@));
    r
}

/// The nodes and the index of the root when `new` is put in the place that `way` leads to, and the
/// primitives on the way are interned anew, from the bottom up.
pub open spec fn rebuild_run(nodes: Seq<Node>, way: Way, new: int) -> (Seq<Node>, int)
    decreases way.len(),
{
    if way.len() == 0 {
        (nodes, new)
    } else {
        let n = nodes[way[0].0 as int];
        let (some, id) = rebuild_run(nodes, way.skip(1), new);
        if way[0].1 {
            prim_step(some, id as u32, n.b)
        } else {
            prim_step(some, n.a, id as u32)
        }
    }
}

/// Putting back what was there gives the old root, and adds nothing.
pub proof fn law_rebuild_back(nodes: Seq<Node>, root: u32, way: Way, target: u32)
    requires
        arena_ok(nodes),
        no_duplicates(nodes),
        root < nodes.len(),
        leads(nodes, root, way, target),
    ensures
        rebuild_run(nodes, way, target as int) == (nodes, root as int),
    decreases way.len(),
{
    if way.len() > 0 {
        let n = nodes[root as int];
        assert(node_ok(nodes, root as int));
        law_rebuild_back(nodes, next_on(nodes, way[0]), way.skip(1), target);
        assert(prim_at(nodes, n.a, n.b, root as int));
        let i = choose|i: int| prim_at(nodes, n.a, n.b, i);
        assert(nodes[i] == nodes[root as int]);
    }
}

/// Puts `new` in the place that `path` leads to, and interns the primitives on the way anew, from
/// the bottom up.
pub fn rebuild(interner: &mut Interner, path: &Vec<(u32, bool)>, new: u32) -> (r: u32)
    requires
        old(interner).wf(),
        new < old(interner).nodes().len(),
        way_ok(old(interner).nodes(), path@),
        old(interner).nodes().len() + path@.len() <= NIL,
    ensures
        final(interner).wf(),
        extends(old(interner).nodes(), final(interner).nodes()),
        final(interner).nodes().len() <= old(interner).nodes().len() + path@.len(),
        (final(interner).nodes(), r as int) == rebuild_run(
            old(interner).nodes(),
            path@,
            new as int,
        ),
        r < final(interner).nodes().len(),
        final(interner).expr(r) == grafted(old(interner).nodes(), path@, old(interner).expr(new)),
        consts_apart(old(interner).nodes()) ==> consts_apart(final(interner).nodes()),
{
    let ghost nodes = interner.nodes();
    let mut current = new;
    let mut i = path.len();
    proof {
        interner.lemma_wf();
        assert(path@.skip(i as int) =~= Seq::<(u32, bool)>::empty());
    }
    while i > 0
        invariant
            interner.wf(),
            nodes == old(interner).nodes(),
            arena_ok(nodes),
            extends(nodes, interner.nodes()),
            interner.nodes().len() <= nodes.len() + (path@.len() - i),
            nodes.len() + path@.len() <= NIL,
            way_ok(nodes, path@),
            i <= path@.len(),
            current < interner.nodes().len(),
            (interner.nodes(), current as int) == rebuild_run(
                nodes,
                path@.skip(i as int),
                new as int,
            ),
            interner.expr(current) == grafted(
                nodes,
                path@.skip(i as int),
                old(interner).expr(new),
            ),
            consts_apart(nodes) ==> consts_apart(interner.nodes()),
        decreases i,
    {
        i -= 1;
        let (parent, left) = path[i];
        let ghost rest = path@.skip(i as int);
        proof {
            assert(way_step_ok(nodes, path@[i as int]));
            assert(node_ok(nodes, parent as int));
            assert(interner.nodes()[parent as int] == nodes[parent as int]);
            lemma_tree_extends(nodes, interner.nodes(), nodes[parent as int].a as int);
            lemma_tree_extends(nodes, interner.nodes(), nodes[parent as int].b as int);
            assert(rest.skip(1) =~= path@.skip(i + 1));
            assert(rest[0] == path@[i as int]);
        }
        let n = *interner.node(parent);
        current = if left {
            interner.intern_prim(current, n.b)
        } else {
            interner.intern_prim(n.a, current)
        };
    }
    assert(path@.skip(0) =~= path@);
    current
}

/// The nodes and the index of the root when the primitive over `a` and `b` is interned and put in
/// the place that `way` leads to.
pub open spec fn mutant_run(nodes: Seq<Node>, way: Way, a: u32, b: u32) -> (Seq<Node>, int) {
    let (some, new) = prim_step(nodes, a, b);
    rebuild_run(some, way, new)
}

/// Puts the primitive over `a` and `b` in the place that `path` leads to.
pub fn mutate_with(interner: &mut Interner, path: &Vec<(u32, bool)>, a: u32, b: u32) -> (r: u32)
    requires
        old(interner).wf(),
        a < old(interner).nodes().len(),
        b < old(interner).nodes().len(),
        way_ok(old(interner).nodes(), path@),
        old(interner).nodes().len() + path@.len() < NIL,
    ensures
        final(interner).wf(),
        extends(old(interner).nodes(), final(interner).nodes()),
        (final(interner).nodes(), r as int) == mutant_run(old(interner).nodes(), path@, a, b),
        r < final(interner).nodes().len(),
        final(interner).expr(r) == grafted(
            old(interner).nodes(),
            path@,
            Expr::Prim(Box::new(old(interner).expr(a)), Box::new(old(interner).expr(b))),
        ),
        consts_apart(old(interner).nodes()) ==> consts_apart(final(interner).nodes()),
{
    let ghost before = interner.nodes();
    proof {
        interner.lemma_wf();
    }
    let new = interner.intern_prim(a, b);
    proof {
        let after = interner.nodes();
        assert forall|i: int| 0 <= i < path@.len() implies way_step_ok(
            after,
            #[trigger] path@[i],
        ) by {
            assert(way_step_ok(before, path@[i]));
            assert(after[path@[i].0 as int] == before[path@[i].0 as int]);
        }
        lemma_grafted_extends(before, after, path@, interner.expr(new));
    }
    rebuild(interner, path, new)
}

/// What a graft gives does not change when nodes are added.
proof fn lemma_grafted_extends(earlier: Seq<Node>, later: Seq<Node>, way: Way, new: Expr)
    requires
        arena_ok(earlier),
        extends(earlier, later),
        way_ok(earlier, way),
    ensures
        grafted(later, way, new) == grafted(earlier, way, new),
    decreases way.len(),
{
    if way.len() > 0 {
        let rest = way.skip(1);
        assert(way_step_ok(earlier, way[0]));
        let p = way[0].0 as int;
        assert(later[p] == earlier[p]);
        assert(node_ok(earlier, p));
        lemma_tree_extends(earlier, later, earlier[p].a as int);
        lemma_tree_extends(earlier, later, earlier[p].b as int);
        assert forall|i: int| 0 <= i < rest.len() implies way_step_ok(
            earlier,
            #[trigger] rest[i],
        ) by {
            assert(way_step_ok(earlier, way[i + 1]));
        }
        lemma_grafted_extends(earlier, later, rest, new);
    }
}

/// `e` is the expression rooted at `root` with the primitive over `a` and `b` put in the place
/// that `way` leads to.
pub open spec fn is_mutant_at(
    nodes: Seq<Node>,
    root: u32,
    way: Way,
    target: u32,
    a: u32,
    b: u32,
    e: Expr,
) -> bool {
    leads(nodes, root, way, target) && a < nodes.len() && b < nodes.len() && e == grafted(
        nodes,
        way,
        Expr::Prim(Box::new(tree(nodes, a as int)), Box::new(tree(nodes, b as int))),
    )
}

/// `e` is the expression rooted at `root` with a primitive over two nodes put in some place.
pub open spec fn is_mutant(nodes: Seq<Node>, root: u32, e: Expr) -> bool {
    exists|way: Way, target: u32, a: u32, b: u32| #[trigger]
        is_mutant_at(nodes, root, way, target, a, b, e)
}

/// `e` comes from the expression rooted at `root` by mutation, or is that expression when there
/// may be no room for the nodes that a mutation takes.
pub open spec fn is_mutated(nodes: Seq<Node>, root: u32, e: Expr) -> bool {
    is_mutant(nodes, root, e) || (nodes.len() + root >= NIL && e == tree(nodes, root as int))
}

/// Puts a primitive over two random nodes in a random place of the expression rooted at `root`.
/// When there is no room for the nodes that this may take, `root` itself is returned.
pub fn mutate(interner: &mut Interner, root: u32) -> (r: u32)
    requires
        old(interner).wf(),
        root < old(interner).nodes().len(),
    ensures
        final(interner).wf(),
        extends(old(interner).nodes(), final(interner).nodes()),
        r < final(interner).nodes().len(),
        is_mutated(old(interner).nodes(), root, final(interner).expr(r)),
        (exists|way: Way, target: u32, a: u32, b: u32| #[trigger]
            is_mutant_at(old(interner).nodes(), root, way, target, a, b, final(interner).expr(r))
                && (final(interner).nodes(), r as int) == mutant_run(
                old(interner).nodes(),
                way,
                a,
                b,
            )) || (r == root && final(interner).nodes() == old(interner).nodes()
            && old(interner).nodes().len() + root >= NIL),
        consts_apart(old(interner).nodes()) ==> consts_apart(final(interner).nodes()),
{
    let ghost nodes = interner.nodes();
    let (path, _target) = random_path(interner, root);
    if interner.len() >= NIL as usize || path.len() >= NIL as usize - interner.len() {
        return root;
    }
    proof {
        interner.lemma_wf();
    }
    let max_id = interner.len() as u32;
    let a = draw_below(max_id);
    let b = draw_below(max_id);
    let r = mutate_with(interner, &path, a, b);
    proof {
        assert(is_mutant_at(nodes, root, path@, _target, a, b, interner.expr(r)));
    }
    r
}

/// `e` is the expression rooted at `root` with a part of the one rooted at `donor` put in some
/// place.
pub open spec fn is_cross(nodes: Seq<Node>, root: u32, donor: u32, e: Expr) -> bool {
    exists|way: Way, target: u32, part: u32|
        #![trigger leads(nodes, root, way, target), reaches(nodes, donor as int, part as int)]
        leads(nodes, root, way, target) && reaches(nodes, donor as int, part as int) && e
            == grafted(nodes, way, tree(nodes, part as int))
}

/// `e` comes from the expressions rooted at `root` and `donor` by crossover, or is the first of
/// them when there may be no room for the nodes that a crossover takes.
pub open spec fn is_crossed(nodes: Seq<Node>, root: u32, donor: u32, e: Expr) -> bool {
    is_cross(nodes, root, donor, e) || (nodes.len() + root > NIL && e == tree(nodes, root as int))
}

/// Putting a part of the expression rooted at `donor` in some place of the one rooted at `root` may
/// lead from `nodes` to `after`, with the new root at `r`.
pub open spec fn may_cross(
    nodes: Seq<Node>,
    root: u32,
    donor: u32,
    after: Seq<Node>,
    r: u32,
) -> bool {
    exists|way: Way, target: u32, part: u32|
        #![trigger leads(nodes, root, way, target), reaches(nodes, donor as int, part as int)]
        leads(nodes, root, way, target) && reaches(nodes, donor as int, part as int) && (
        after,
        r as int,
        ) == rebuild_run(nodes, way, part as int)
}

/// Puts a random part of the expression rooted at `donor` in a random place of the one rooted at
/// `recipient`. When there is no room for the nodes that this may take, `recipient` itself is
/// returned.
pub fn crossover(interner: &mut Interner, recipient: u32, donor: u32) -> (r: u32)
    requires
        old(interner).wf(),
        recipient < old(interner).nodes().len(),
        donor < old(interner).nodes().len(),
    ensures
        final(interner).wf(),
        extends(old(interner).nodes(), final(interner).nodes()),
        r < final(interner).nodes().len(),
        is_crossed(old(interner).nodes(), recipient, donor, final(interner).expr(r)),
        may_cross(old(interner).nodes(), recipient, donor, final(interner).nodes(), r) || (r
            == recipient && final(interner).nodes() == old(interner).nodes()
            && old(interner).nodes().len() + recipient > NIL),
        consts_apart(old(interner).nodes()) ==> consts_apart(final(interner).nodes()),
{
    let ghost nodes = interner.nodes();
    let (path, _target) = random_path(interner, recipient);
    if interner.len() > NIL as usize || path.len() > NIL as usize - interner.len() {
        return recipient;
    }
    let donor_nodes = subtree_nodes(interner, donor);
    let part = match draw_from(&donor_nodes) {
        Some(part) => part,
        None => donor,
    };
    proof {
        interner.lemma_wf();
        assert(reaches(nodes, donor as int, part as int));
        lemma_reaches_below(nodes, donor as int, part as int);
        assert(leads(nodes, recipient, path@, _target));
    }
    rebuild(interner, &path, part)
}

/// Either all are numbers or none is.
pub open spec fn comparable(fits: Seq<u64>) -> bool {
    (forall|i: int| 0 <= i < fits.len() ==> !is_nan(#[trigger] fits[i])) || (forall|i: int|
        0 <= i < fits.len() ==> is_nan(#[trigger] fits[i]))
}

/// `i` is fitter than `j`, or it is not less fit and comes first.
pub open spec fn ranks_before(fits: Seq<u64>, i: usize, j: usize) -> bool {
    float_lt(fits[j as int], fits[i as int]) || (!float_lt(fits[i as int], fits[j as int]) && i
        < j)
}

/// `order` holds each of the indices below `n` once.
pub open spec fn is_permutation(order: Seq<usize>, n: nat) -> bool {
    order.len() == n && order.no_duplicates() && forall|p: int|
        0 <= p < order.len() ==> (#[trigger] order[p]) < n
}

/// Every index in `order` ranks before those that come after it.
pub open spec fn is_ranked(fits: Seq<u64>, order: Seq<usize>) -> bool {
    forall|p: int, q: int|
        0 <= p < q < order.len() ==> ranks_before(fits, #[trigger] order[p], #[trigger] order[q])
}

/// The indices of the candidates from the fittest down; of equally fit ones, the earlier first.
pub fn rank(fits: &Vec<u64>) -> (order: Vec<usize>)
    ensures
        is_permutation(order@, fits@.len()),
        comparable(fits@) ==> is_ranked(fits@, order@),
{
    let mut order: Vec<usize> = Vec::new();
    let mut i: usize = 0;
    while i < fits.len()
        invariant
            i <= fits@.len(),
            is_permutation(order@, i as nat),
            comparable(fits@) ==> is_ranked(fits@, order@),
        decreases fits@.len() - i,
    {
        let mut p = order.len();
        while p > 0 && lt(fits[order[p - 1]], fits[i])
            invariant
                i < fits@.len(),
                is_permutation(order@, i as nat),
                p <= order@.len(),
                forall|q: int|
                    p <= q < order@.len() ==> float_lt(
                        fits@[#[trigger] order@[q] as int],
                        fits@[i as int],
                    ),
            decreases p,
        {
            p -= 1;
        }
        let ghost before = order@;
        order.insert(p, i);
        proof {
            lemma_insert_rank(fits@, before, p as int, i);
        }
        i += 1;
    }
    order
}

/// Inserting the next index behind the last one that it is not fitter than keeps the ranking.
proof fn lemma_insert_rank(fits: Seq<u64>, before: Seq<usize>, p: int, i: usize)
    requires
        i < fits.len(),
        is_permutation(before, i as nat),
        0 <= p <= before.len(),
        p > 0 ==> !float_lt(fits[before[p - 1] as int], fits[i as int]),
        forall|q: int|
            p <= q < before.len() ==> float_lt(fits[#[trigger] before[q] as int], fits[i as int]),
    ensures
        is_permutation(before.insert(p, i), i as nat + 1),
        comparable(fits) && is_ranked(fits, before) ==> is_ranked(fits, before.insert(p, i)),
{
    let after = before.insert(p, i);
    assert forall|q: int| 0 <= q < after.len() implies (#[trigger] after[q]) < i + 1 by {
        if q < p {
            assert(after[q] == before[q]);
        } else if q > p {
            assert(after[q] == before[q - 1]);
        }
    }
    assert forall|q: int, r: int| 0 <= q < r < after.len() implies after[q] != after[r] by {
        let x = if q < p {
            before[q]
        } else if q > p {
            before[q - 1]
        } else {
            i
        };
        let y = if r < p {
            before[r]
        } else if r > p {
            before[r - 1]
        } else {
            i
        };
        assert(after[q] == x && after[r] == y);
    }
    if comparable(fits) && is_ranked(fits, before) {
        assert forall|q: int, r: int| 0 <= q < r < after.len() implies ranks_before(
            fits,
            #[trigger] after[q],
            #[trigger] after[r],
        ) by {
            if q < p {
                assert(after[q] == before[q]);
                if r < p {
                    assert(after[r] == before[r]);
                } else if r > p {
                    assert(after[r] == before[r - 1]);
                } else {
                    if q < p - 1 {
                        assert(ranks_before(fits, before[q], before[p - 1]));
                    }
                    assert(before[q] < i);
                }
            } else if q > p {
                assert(after[q] == before[q - 1]);
                assert(after[r] == before[r - 1]);
            } else {
                assert(after[r] == before[r - 1]);
            }
        }
    }
}

/// What a search has found: a candidate, its fitness, how many generations came and went, and
/// whether the candidate has the values of the target at the sample points.
pub struct SearchResult {
    pub best: u32,
    pub best_fitness: u64,
    pub generations_run: u64,
    pub exact_match_found: bool,
}

/// The best candidate and its fitness after the fittest candidate `top` of a generation was judged,
/// when no candidate of the generation ends the search.
pub open spec fn assessed(best: u32, best_fitness: u64, top: u32, fit: u64) -> (u32, u64) {
    if float_lt(best_fitness, fit) {
        (top, fit)
    } else {
        (best, best_fitness)
    }
}

/// Takes the fittest candidate `top` of a generation into account.
pub fn assess(best: u32, best_fitness: u64, top: u32, fit: u64) -> (r: (u32, u64))
    ensures
        r == assessed(best, best_fitness, top, fit),
{
    if lt(best_fitness, fit) {
        (top, fit)
    } else {
        (best, best_fitness)
    }
}

/// The fitter of two candidates is the best so far, and the earlier one if neither is fitter.
pub proof fn law_assessed(best: u32, best_fitness: u64, top: u32, fit: u64)
    ensures
        ({
            let (id, kept) = assessed(best, best_fitness, top, fit);
            &&& (id, kept) == (best, best_fitness) || (id, kept) == (top, fit)
            &&& !float_lt(kept, best_fitness)
            &&& !float_lt(kept, fit)
            &&& float_eq(best_fitness, fit) ==> id == best
        }),
{
}

/// Candidate `k` ends the search: it is at distance zero from the target, and has no more
/// operations than `bound`.
pub open spec fn ends(judged: Seq<(u64, u64)>, costs: Seq<u64>, bound: u64, k: int) -> bool {
    judged[k].0 == 0 && costs[k] <= bound
}

/// The fittest of the first `n` candidates that end the search, and the first of them if there is
/// more than one.
pub open spec fn end_among(judged: Seq<(u64, u64)>, costs: Seq<u64>, bound: u64, n: int) -> Option<
    int,
>
    decreases n,
{
    if n <= 0 {
        None
    } else {
        let sooner = end_among(judged, costs, bound, n - 1);
        if ends(judged, costs, bound, n - 1) && (sooner is None || float_lt(
            judged[sooner->0].1,
            judged[n - 1].1,
        )) {
            Some(n - 1)
        } else {
            sooner
        }
    }
}

/// None that ends the search is fitter than the one that does.
proof fn lemma_end_among(judged: Seq<(u64, u64)>, costs: Seq<u64>, bound: u64, n: int)
    requires
        0 <= n,
    ensures
        match end_among(judged, costs, bound, n) {
            Some(c) => 0 <= c < n && ends(judged, costs, bound, c) && forall|k: int|
                0 <= k < n && #[trigger] ends(judged, costs, bound, k) ==> !float_lt(
                    judged[c].1,
                    judged[k].1,
                ),
            None => forall|k: int| 0 <= k < n ==> !#[trigger] ends(judged, costs, bound, k),
        },
    decreases n,
{
    if n > 0 {
        lemma_end_among(judged, costs, bound, n - 1);
    }
}

/// How many operations a candidate that ends a search may have: no more than the seed when the
/// seed itself is at distance zero from the target and operations count against a candidate, and any
/// number otherwise.
pub open spec fn end_bound(dist: u64, cost: u64, lambda: u64) -> u64 {
    if dist == 0 && float_lt(0, lambda) {
        cost
    } else {
        u64::MAX
    }
}

/// How the next candidate comes about.
#[derive(Clone, Copy, Debug, PartialEq, Eq, Structural)]
pub enum Operator {
    Crossover,
    Mutation,
    Copy,
}

/// What a random number from zero to one decides.
pub open spec fn operator_for(roll: u64, crossover_rate: u64, mutation_rate: u64) -> Operator {
    if float_lt(roll, crossover_rate) {
        Operator::Crossover
    } else if float_lt(roll, sum(crossover_rate, mutation_rate)) {
        Operator::Mutation
    } else {
        Operator::Copy
    }
}

pub fn choose_operator(roll: u64, crossover_rate: u64, mutation_rate: u64) -> (r: Operator)
    ensures
        r == operator_for(roll, crossover_rate, mutation_rate),
{
    if lt(roll, crossover_rate) {
        Operator::Crossover
    } else if lt(roll, get_sum(crossover_rate, mutation_rate)) {
        Operator::Mutation
    } else {
        Operator::Copy
    }
}

/// Crossover comes about exactly when the random number is below its rate, whatever the rate of
/// mutation: never with a rate of zero or less, and always with a rate of one. A mutation comes about
/// at numbers from the rate of crossover up to the sum of both rates, so that with a sum of one or
/// more no candidate is copied, and with a sum that is not above the rate of crossover none is
/// mutated. Larger numbers never lead back from copying to mutation, or from there to crossover.
pub proof fn law_operator(roll: u64, larger: u64, crossover_rate: u64, mutation_rate: u64)
    requires
        roll < ONE_BITS,
        float_le(roll, larger),
    ensures
        ({
            let op = operator_for(roll, crossover_rate, mutation_rate);
            let next = operator_for(larger, crossover_rate, mutation_rate);
            let total = sum(crossover_rate, mutation_rate);
            &&& op == Operator::Crossover <==> float_lt(roll, crossover_rate)
            &&& float_le(crossover_rate, 0) ==> op != Operator::Crossover
            &&& float_le(ONE_BITS, crossover_rate) ==> op == Operator::Crossover
            &&& float_le(ONE_BITS, total) ==> op != Operator::Copy
            &&& float_le(total, crossover_rate) ==> op != Operator::Mutation
            &&& op == Operator::Mutation ==> float_lt(roll, total)
            &&& op == Operator::Copy ==> next == Operator::Copy
            &&& next == Operator::Crossover ==> op == Operator::Crossover
        }),
{
}

/// All of `ids` are nodes.
pub open spec fn all_nodes(nodes: Seq<Node>, ids: Seq<u32>) -> bool {
    forall|k: int| 0 <= k < ids.len() ==> (#[trigger] ids[k]) < nodes.len()
}

/// `e` is what `parent`, and perhaps `donor`, lead to when `roll` decides how.
pub open spec fn is_child_by(
    nodes: Seq<Node>,
    config: SearchConfig,
    parent: u32,
    donor: u32,
    roll: u64,
    e: Expr,
) -> bool {
    roll < ONE_BITS && match operator_for(roll, config.crossover_rate, config.mutation_rate) {
        Operator::Crossover => is_crossed(nodes, parent, donor, e),
        Operator::Mutation => is_mutated(nodes, parent, e),
        Operator::Copy => e == tree(nodes, parent as int),
    }
}

/// `e` comes from some of `parents` by crossover, mutation or as it is.
pub open spec fn is_child(
    nodes: Seq<Node>,
    config: SearchConfig,
    parents: Seq<u32>,
    e: Expr,
) -> bool {
    exists|parent: u32, donor: u32, roll: u64|
        parents.contains(parent) && parents.contains(donor) && #[trigger] is_child_by(
            nodes,
            config,
            parent,
            donor,
            roll,
            e,
        )
}

/// The node `id` was made while the nodes grew from `before` to `after`, as a child of
/// `parents`.
pub open spec fn born(
    before: Seq<Node>,
    after: Seq<Node>,
    config: SearchConfig,
    parents: Seq<u32>,
    id: u32,
) -> bool {
    exists|nodes: Seq<Node>| #[trigger]
        extends(before, nodes) && extends(nodes, after) && is_child(
            nodes,
            config,
            parents,
            tree(after, id as int),
        )
}

/// One random child of `elites`.
fn make_child(interner: &mut Interner, elites: &Vec<u32>, config: &SearchConfig) -> (r: u32)
    requires
        old(interner).wf(),
        elites@.len() > 0,
        all_nodes(old(interner).nodes(), elites@),
    ensures
        final(interner).wf(),
        extends(old(interner).nodes(), final(interner).nodes()),
        r < final(interner).nodes().len(),
        is_child(old(interner).nodes(), *config, elites@, final(interner).expr(r)),
        consts_apart(old(interner).nodes()) ==> consts_apart(final(interner).nodes()),
{
    let ghost nodes = interner.nodes();
    let parent = draw_elite(elites);
    assert(parent < nodes.len());
    let roll = draw_unit();
    let (r, donor) = match choose_operator(roll, config.crossover_rate, config.mutation_rate) {
        Operator::Crossover => {
            let donor = draw_elite(elites);
            assert(donor < nodes.len());
            (crossover(interner, parent, donor), donor)
        },
        Operator::Mutation => (mutate(interner, parent), parent),
        Operator::Copy => (parent, parent),
    };
    assert(is_child_by(nodes, *config, parent, donor, roll, interner.expr(r)));
    r
}

/// One of `elites`.
fn draw_elite(elites: &Vec<u32>) -> (r: u32)
    requires
        elites@.len() > 0,
    ensures
        elites@.contains(r),
{
    match draw_from(elites) {
        Some(id) => id,
        None => elites[0],
    }
}

/// `next` is a generation that `elites` may lead to: the elites, and children of theirs up to the
/// size of the population.
pub open spec fn bred(
    before: Seq<Node>,
    after: Seq<Node>,
    config: SearchConfig,
    elites: Seq<u32>,
    next: Seq<u32>,
) -> bool {
    &&& extends(before, after)
    &&& all_nodes(after, next)
    &&& next.len() == (if elites.len() >= config.population_size {
        elites.len()
    } else {
        config.population_size as nat
    })
    &&& next.take(elites.len() as int) == elites
    &&& forall|k: int|
        elites.len() <= k < next.len() ==> born(before, after, config, elites, #[trigger] next[k])
}

/// The next generation: the elites, and random children of theirs up to the size of the
/// population.
pub fn breed(interner: &mut Interner, elites: &Vec<u32>, config: &SearchConfig) -> (next: Vec<u32>)
    requires
        old(interner).wf(),
        elites@.len() > 0,
        all_nodes(old(interner).nodes(), elites@),
    ensures
        final(interner).wf(),
        bred(old(interner).nodes(), final(interner).nodes(), *config, elites@, next@),
        consts_apart(old(interner).nodes()) ==> consts_apart(final(interner).nodes()),
{
    let mut next = elites.clone();
    assert(next@ =~= elites@);
    assert(next@.take(elites@.len() as int) =~= elites@);
    while next.len() < config.population_size
        invariant
            interner.wf(),
            extends(old(interner).nodes(), interner.nodes()),
            elites@.len() > 0,
            all_nodes(interner.nodes(), elites@),
            all_nodes(interner.nodes(), next@),
            elites@.len() <= next@.len(),
            next@.len() == elites@.len() || next@.len() <= config.population_size,
            next@.take(elites@.len() as int) == elites@,
            forall|k: int|
                elites@.len() <= k < next@.len() ==> born(
                    old(interner).nodes(),
                    interner.nodes(),
                    *config,
                    elites@,
                    #[trigger] next@[k],
                ),
            consts_apart(old(interner).nodes()) ==> consts_apart(interner.nodes()),
        decreases config.population_size - next@.len(),
    {
        let ghost before = interner.nodes();
        let ghost earlier = next@;
        let child = make_child(interner, elites, config);
        next.push(child);
        proof {
            let after = interner.nodes();
            assert(next@.take(elites@.len() as int) =~= earlier.take(elites@.len() as int));
            assert forall|k: int| elites@.len() <= k < next@.len() implies born(
                old(interner).nodes(),
                after,
                *config,
                elites@,
                #[trigger] next@[k],
            ) by {
                if k < earlier.len() {
                    assert(next@[k] == earlier[k]);
                    assert(born(old(interner).nodes(), before, *config, elites@, earlier[k]));
                    let nodes = choose|nodes: Seq<Node>| #[trigger]
                        extends(old(interner).nodes(), nodes) && extends(nodes, before)
                            && is_child(nodes, *config, elites@, tree(before, earlier[k] as int));
                    lemma_tree_extends(before, after, earlier[k] as int);
                    assert(extends(nodes, after));
                } else {
                    assert(extends(old(interner).nodes(), before));
                }
            }
        }
    }
    next
}

/// The judgement of a candidate does not change when nodes are added.
proof fn lemma_judge_extends<E: Fn(&Vec<Step>, Complex64) -> Complex64>(
    eval: E,
    earlier: Seq<Node>,
    later: Seq<Node>,
    candidate: u32,
    target: Seq<u8>,
    lambda: u64,
    j: (u64, u64),
)
    requires
        arena_ok(earlier),
        extends(earlier, later),
        candidate < earlier.len(),
        may_judge(eval, earlier, candidate, target, lambda, j),
    ensures
        may_judge(eval, later, candidate, target, lambda, j),
{
    lemma_plan_extends(earlier, later, candidate);
    lemma_tree_extends(earlier, later, candidate as int);
}

spec fn is_index(population: Seq<u32>, i: usize) -> bool {
    i < population.len()
}

/// `j` is a judgement that candidate number `i` may have.
spec fn may_judge_at<E: Fn(&Vec<Step>, Complex64) -> Complex64>(
    eval: E,
    nodes: Seq<Node>,
    population: Seq<u32>,
    i: usize,
    target: Seq<u8>,
    lambda: u64,
    j: (u64, u64),
) -> bool {
    may_judge(eval, nodes, population[i as int], target, lambda, j)
}

/// `judged` are judgements that the candidates may have.
pub open spec fn all_judged<E: Fn(&Vec<Step>, Complex64) -> Complex64>(
    eval: E,
    nodes: Seq<Node>,
    population: Seq<u32>,
    target: Seq<u8>,
    lambda: u64,
    judged: Seq<(u64, u64)>,
) -> bool {
    judged.len() == population.len() && forall|k: int|
        0 <= k < judged.len() ==> may_judge(
            eval,
            nodes,
            population[k],
            target,
            lambda,
            #[trigger] judged[k],
        )
}

/// Judges every candidate, on several threads.
pub fn judge_all<E: Fn(&Vec<Step>, Complex64) -> Complex64 + Sync>(
    interner: &Interner,
    population: &Vec<u32>,
    target: &Vec<u8>,
    lambda: u64,
    eval: &E,
) -> (judged: Vec<(u64, u64)>)
    requires
        interner.wf(),
        all_nodes(interner.nodes(), population@),
        evaluator(*eval),
    ensures
        all_judged(*eval, interner.nodes(), population@, target@, lambda, judged@),
{
    let one = |i: usize| -> (j: (u64, u64))
        requires
            is_index(population@, i),
        ensures
            may_judge_at(*eval, interner.nodes(), population@, i, target@, lambda, j),
        { judge(interner, population[i], target, lambda, eval) };
    let judged = map_indices(population.len(), one);
    assert forall|k: int| 0 <= k < judged@.len() implies may_judge(
        *eval,
        interner.nodes(),
        population@[k],
        target@,
        lambda,
        #[trigger] judged@[k],
    ) by {
        let i = k as usize;
        assert(judged@[i as int] == judged@[k]);
        assert(may_judge_at(
            *eval,
            interner.nodes(),
            population@,
            i,
            target@,
            lambda,
            judged@[k],
        ));
    }
    judged
}

/// What a search that started from `seed` may come to, when the seed is judged as `start` and the
/// best candidate as `end`.
pub open spec fn may_find_judged<E: Fn(&Vec<Step>, Complex64) -> Complex64>(
    eval: E,
    nodes: Seq<Node>,
    seed: u32,
    target: Seq<u8>,
    lambda: u64,
    r: SearchResult,
    start: (u64, u64),
    end: (u64, u64),
) -> bool {
    &&& may_judge(eval, nodes, seed, target, lambda, start)
    &&& may_judge(eval, nodes, r.best, target, lambda, end)
    &&& r.best_fitness == end.1
    &&& if r.exact_match_found {
        end.0 == 0
    } else {
        (r.best == seed && end == start) || float_lt(start.1, end.1)
    }
}

/// What a search that started from `seed` may come to: a candidate at distance zero from the
/// target, or else the seed or a candidate that is fitter.
pub open spec fn may_find<E: Fn(&Vec<Step>, Complex64) -> Complex64>(
    eval: E,
    nodes: Seq<Node>,
    seed: u32,
    target: Seq<u8>,
    lambda: u64,
    r: SearchResult,
) -> bool {
    exists|start: (u64, u64), end: (u64, u64)| #[trigger]
        may_find_judged(eval, nodes, seed, target, lambda, r, start, end)
}

/// A candidate at distance zero may have exactly the values of the target at the sample points.
pub proof fn law_exact_match_agrees<E: Fn(&Vec<Step>, Complex64) -> Complex64>(
    eval: E,
    nodes: Seq<Node>,
    candidate: u32,
    target: Seq<u8>,
    lambda: u64,
    fit: u64,
)
    requires
        target.len() == 96,
        may_judge(eval, nodes, candidate, target, lambda, (0, fit)),
    ensures
        may_encode(eval, plan_at(nodes, candidate), target),
{
    let bytes = choose|bytes: Seq<u8>| #[trigger]
        may_encode(eval, plan_at(nodes, candidate), bytes) && 0 == distance(bytes, target)
            && fit == score(0, capped(ops(tree(nodes, candidate as int))), lambda);
    lemma_encoded_len(eval, plan_at(nodes, candidate), bytes);
    law_distance(bytes, target);
}

/// The node `id` was made while the nodes grew from `before` to `after`, by mutation of `seed`.
pub open spec fn sprung(before: Seq<Node>, after: Seq<Node>, seed: u32, id: u32) -> bool {
    exists|nodes: Seq<Node>| #[trigger]
        extends(before, nodes) && extends(nodes, after) && is_mutated(
            nodes,
            seed,
            tree(after, id as int),
        )
}

/// `population` is a first generation of `size` candidates that `seed` may lead to: the seed, and
/// mutants of it.
pub open spec fn seeded(
    before: Seq<Node>,
    after: Seq<Node>,
    seed: u32,
    size: usize,
    population: Seq<u32>,
) -> bool {
    &&& extends(before, after)
    &&& all_nodes(after, population)
    &&& population.len() == size
    &&& size > 0 ==> population[0] == seed
    &&& forall|k: int| 1 <= k < size ==> sprung(before, after, seed, #[trigger] population[k])
}

/// The first generation: the seed, and random mutants of it.
fn first_generation(interner: &mut Interner, seed: u32, size: usize) -> (population: Vec<u32>)
    requires
        old(interner).wf(),
        seed < old(interner).nodes().len(),
    ensures
        final(interner).wf(),
        seeded(old(interner).nodes(), final(interner).nodes(), seed, size, population@),
        consts_apart(old(interner).nodes()) ==> consts_apart(final(interner).nodes()),
{
    let mut population: Vec<u32> = Vec::new();
    while population.len() < size
        invariant
            interner.wf(),
            extends(old(interner).nodes(), interner.nodes()),
            seed < old(interner).nodes().len(),
            population@.len() <= size,
            all_nodes(interner.nodes(), population@),
            population@.len() > 0 ==> population@[0] == seed,
            forall|k: int|
                1 <= k < population@.len() ==> sprung(
                    old(interner).nodes(),
                    interner.nodes(),
                    seed,
                    #[trigger] population@[k],
                ),
            consts_apart(old(interner).nodes()) ==> consts_apart(interner.nodes()),
        decreases size - population@.len(),
    {
        let ghost before = interner.nodes();
        let ghost earlier = population@;
        let candidate = if population.len() == 0 {
            seed
        } else {
            mutate(interner, seed)
        };
        population.push(candidate);
        proof {
            let after = interner.nodes();
            assert forall|k: int| 1 <= k < population@.len() implies sprung(
                old(interner).nodes(),
                after,
                seed,
                #[trigger] population@[k],
            ) by {
                if k < earlier.len() {
                    assert(population@[k] == earlier[k]);
                    assert(sprung(old(interner).nodes(), before, seed, earlier[k]));
                    let nodes = choose|nodes: Seq<Node>| #[trigger]
                        extends(old(interner).nodes(), nodes) && extends(nodes, before)
                            && is_mutated(nodes, seed, tree(before, earlier[k] as int));
                    lemma_tree_extends(before, after, earlier[k] as int);
                    assert(extends(nodes, after));
                } else {
                    assert(extends(old(interner).nodes(), before));
                }
            }
        }
    }
    population
}

/// The fitnesses of judged candidates.
pub open spec fn fits_of(judged: Seq<(u64, u64)>) -> Seq<u64> {
    Seq::new(judged.len(), |k: int| judged[k].1)
}

/// What a generation leads to: the best candidate so far, its fitness, whether the search is
/// over, and the candidates that are kept.
pub struct Selection {
    pub best: u32,
    pub best_fitness: u64,
    pub over: bool,
    pub elites: Vec<u32>,
}

/// What a generation leads to when its candidates rank as in `order`.
pub open spec fn selected(
    population: Seq<u32>,
    judged: Seq<(u64, u64)>,
    costs: Seq<u64>,
    bound: u64,
    best: u32,
    best_fitness: u64,
    elite_count: usize,
    order: Seq<usize>,
    r: Selection,
) -> bool {
    let wanted = if elite_count > 1 {
        elite_count as int
    } else {
        1
    };
    let top = order[0] as int;
    &&& is_permutation(order, population.len())
    &&& comparable(fits_of(judged)) ==> is_ranked(fits_of(judged), order)
    &&& (r.best, r.best_fitness, r.over) == (match end_among(
        judged,
        costs,
        bound,
        population.len() as int,
    ) {
        Some(c) => (population[c], judged[c].1, true),
        None => if population.len() > 0 {
            let (id, fit) = assessed(best, best_fitness, population[top], judged[top].1);
            (id, fit, false)
        } else {
            (best, best_fitness, false)
        },
    })
    &&& r.elites@.len() == (if wanted <= order.len() {
        wanted
    } else {
        order.len() as int
    })
    &&& forall|k: int|
        0 <= k < r.elites@.len() ==> #[trigger] r.elites@[k] == population[order[k] as int]
}

/// As many candidates are kept as are wanted, but at least one, and all of them when there are not
/// more. They stand from the fittest down, and none that is left out is fitter than one that is kept.
pub proof fn law_elites(
    population: Seq<u32>,
    judged: Seq<(u64, u64)>,
    costs: Seq<u64>,
    bound: u64,
    best: u32,
    best_fitness: u64,
    elite_count: usize,
    order: Seq<usize>,
    r: Selection,
    p: int,
    q: int,
)
    requires
        judged.len() == population.len(),
        population.len() > 0,
        comparable(fits_of(judged)),
        selected(population, judged, costs, bound, best, best_fitness, elite_count, order, r),
        0 <= p < q < population.len(),
    ensures
        1 <= r.elites@.len() <= population.len(),
        r.elites@.len() < population.len() ==> r.elites@.len() == elite_count || (elite_count == 0
            && r.elites@.len() == 1),
        elite_count >= population.len() ==> r.elites@.len() == population.len(),
        p < r.elites@.len() ==> r.elites@[p] == population[order[p] as int],
        order[p] != order[q],
        !float_lt(judged[order[p] as int].1, judged[order[q] as int].1),
        float_eq(judged[order[p] as int].1, judged[order[q] as int].1) ==> order[p] < order[q],
{
    let fits = fits_of(judged);
    assert(ranks_before(fits, order[p], order[q]));
    assert(fits[order[p] as int] == judged[order[p] as int].1);
    assert(fits[order[q] as int] == judged[order[q] as int].1);
}

/// The fittest candidate that ends the search, if there is one.
fn find_end(judged: &Vec<(u64, u64)>, costs: &Vec<u64>, bound: u64) -> (r: Option<usize>)
    requires
        judged@.len() == costs@.len(),
    ensures
        match r {
            Some(c) => end_among(judged@, costs@, bound, judged@.len() as int) == Some(c as int),
            None => end_among(judged@, costs@, bound, judged@.len() as int) is None,
        },
        r matches Some(c) ==> c < judged@.len(),
{
    let mut found: Option<usize> = None;
    let mut k: usize = 0;
    while k < judged.len()
        invariant
            k <= judged@.len(),
            judged@.len() == costs@.len(),
            match found {
                Some(c) => end_among(judged@, costs@, bound, k as int) == Some(c as int) && c < k,
                None => end_among(judged@, costs@, bound, k as int) is None,
            },
        decreases judged@.len() - k,
    {
        if judged[k].0 == 0 && costs[k] <= bound {
            let fitter = match found {
                Some(c) => lt(judged[c].1, judged[k].1),
                None => true,
            };
            if fitter {
                found = Some(k);
            }
        }
        k += 1;
    }
    found
}

/// Ranks the judged candidates of a generation, and keeps the first `elite_count` of the ranking,
/// at least one of them. The fittest candidate that ends the search is its result, if there is
/// one; otherwise the fittest of all is taken into account.
pub fn select(
    population: &Vec<u32>,
    judged: &Vec<(u64, u64)>,
    costs: &Vec<u64>,
    bound: u64,
    best: u32,
    best_fitness: u64,
    elite_count: usize,
) -> (r: Selection)
    requires
        judged@.len() == population@.len(),
        costs@.len() == population@.len(),
    ensures
        exists|order: Seq<usize>| #[trigger]
            selected(
                population@,
                judged@,
                costs@,
                bound,
                best,
                best_fitness,
                elite_count,
                order,
                r,
            ),
{
    let mut fits: Vec<u64> = Vec::new();
    let mut k: usize = 0;
    while k < judged.len()
        invariant
            k <= judged@.len(),
            fits@.len() == k,
            forall|m: int| 0 <= m < k ==> #[trigger] fits@[m] == judged@[m].1,
        decreases judged@.len() - k,
    {
        fits.push(judged[k].1);
        k += 1;
    }
    assert(fits@ =~= fits_of(judged@));
    let order = rank(&fits);
    let (new_best, new_fitness, over) = match find_end(judged, costs, bound) {
        Some(c) => (population[c], judged[c].1, true),
        None => if order.len() > 0 {
            let top = order[0];
            let (id, fit) = assess(best, best_fitness, population[top], judged[top].1);
            (id, fit, false)
        } else {
            (best, best_fitness, false)
        },
    };
    let wanted = if elite_count > 1 {
        elite_count
    } else {
        1
    };
    let mut elites: Vec<u32> = Vec::new();
    while elites.len() < wanted && elites.len() < order.len()
        invariant
            is_permutation(order@, population@.len()),
            elites@.len() <= wanted,
            elites@.len() <= order@.len(),
            forall|k: int|
                0 <= k < elites@.len() ==> #[trigger] elites@[k] == population@[order@[k] as int],
        decreases wanted - elites@.len(),
    {
        let at = order[elites.len()];
        elites.push(population[at]);
    }
    let r = Selection { best: new_best, best_fitness: new_fitness, over, elites };
    assert(selected(
        population@,
        judged@,
        costs@,
        bound,
        best,
        best_fitness,
        elite_count,
        order@,
        r,
    ));
    r
}

/// How many operations each candidate has, as far as that can be counted.
pub open spec fn costs_of(nodes: Seq<Node>, population: Seq<u32>) -> Seq<u64> {
    Seq::new(population.len(), |k: int| capped(ops(tree(nodes, population[k] as int))))
}

fn get_costs(interner: &Interner, population: &Vec<u32>) -> (r: Vec<u64>)
    requires
        interner.wf(),
        all_nodes(interner.nodes(), population@),
    ensures
        r@ == costs_of(interner.nodes(), population@),
{
    let mut costs: Vec<u64> = Vec::new();
    let mut k: usize = 0;
    while k < population.len()
        invariant
            interner.wf(),
            all_nodes(interner.nodes(), population@),
            k <= population@.len(),
            costs@ == costs_of(interner.nodes(), population@).take(k as int),
        decreases population@.len() - k,
    {
        assert(population@[k as int] < interner.nodes().len());
        costs.push(capped_op_count(interner, population[k]));
        k += 1;
        assert(costs@ =~= costs_of(interner.nodes(), population@).take(k as int));
    }
    assert(costs@ =~= costs_of(interner.nodes(), population@));
    costs
}

/// A generation: the nodes there are, the candidates, and the best candidate so far with its
/// fitness.
pub struct Generation {
    pub nodes: Seq<Node>,
    pub population: Seq<u32>,
    pub best: u32,
    pub best_fitness: u64,
}

/// The candidates of `g` may be judged and selected from with the outcome `r`.
pub open spec fn may_select<E: Fn(&Vec<Step>, Complex64) -> Complex64>(
    eval: E,
    target: Seq<u8>,
    config: SearchConfig,
    bound: u64,
    g: Generation,
    r: Selection,
) -> bool {
    exists|judged: Seq<(u64, u64)>, order: Seq<usize>| #[trigger]
        selected(
            g.population,
            judged,
            costs_of(g.nodes, g.population),
            bound,
            g.best,
            g.best_fitness,
            config.elite_count,
            order,
            r,
        ) && all_judged(eval, g.nodes, g.population, target, config.lambda, judged)
}

/// `h` may be the generation after `g`: no candidate of `g` ended the search, and `h` was bred
/// from those that were kept.
pub open spec fn may_succeed<E: Fn(&Vec<Step>, Complex64) -> Complex64>(
    eval: E,
    target: Seq<u8>,
    config: SearchConfig,
    bound: u64,
    g: Generation,
    h: Generation,
) -> bool {
    exists|r: Selection| #[trigger]
        may_select(eval, target, config, bound, g, r) && !r.over && h.best == r.best && h.best_fitness
            == r.best_fitness && if r.elites@.len() > 0 {
            bred(g.nodes, h.nodes, config, r.elites@, h.population)
        } else {
            h.nodes == g.nodes && h.population == g.population
        }
}

/// `gens` are generations that a search from `seed`, which is judged as `start`, may go through.
pub open spec fn is_course<E: Fn(&Vec<Step>, Complex64) -> Complex64>(
    eval: E,
    before: Seq<Node>,
    seed: u32,
    target: Seq<u8>,
    config: SearchConfig,
    start: (u64, u64),
    gens: Seq<Generation>,
) -> bool {
    let bound = end_bound(start.0, capped(ops(tree(before, seed as int))), config.lambda);
    &&& gens.len() > 0
    &&& seeded(before, gens[0].nodes, seed, config.population_size, gens[0].population)
    &&& gens[0].best == seed
    &&& may_judge(eval, gens[0].nodes, seed, target, config.lambda, start)
    &&& gens[0].best_fitness == start.1
    &&& forall|i: int| 0 <= i < gens.len() ==> arena_ok((#[trigger] gens[i]).nodes)
    &&& forall|i: int|
        0 <= i < gens.len() - 1 ==> may_succeed(
            eval,
            target,
            config,
            bound,
            #[trigger] gens[i],
            gens[i + 1],
        )
}

/// A search that goes through `gens` may end with `r`: either a candidate of the last generation
/// ended it, or the time was up then.
pub open spec fn is_search<E: Fn(&Vec<Step>, Complex64) -> Complex64, K: Fn() -> bool>(
    eval: E,
    in_time: K,
    before: Seq<Node>,
    seed: u32,
    target: Seq<u8>,
    config: SearchConfig,
    start: (u64, u64),
    gens: Seq<Generation>,
    after: Seq<Node>,
    r: SearchResult,
) -> bool {
    let bound = end_bound(start.0, capped(ops(tree(before, seed as int))), config.lambda);
    &&& is_course(eval, before, seed, target, config, start, gens)
    &&& gens.len() == r.generations_run + 1
    &&& after == gens.last().nodes
    &&& r.generations_run > 0 || r.exact_match_found ==> call_ensures(in_time, (), true)
    &&& if r.exact_match_found {
        exists|chosen: Selection| #[trigger]
            may_select(eval, target, config, bound, gens.last(), chosen) && chosen.over && r.best
                == chosen.best && r.best_fitness == chosen.best_fitness
    } else {
        r.best == gens.last().best && r.best_fitness == gens.last().best_fitness && (call_ensures(
            in_time,
            (),
            false,
        ) || r.generations_run == u64::MAX)
    }
}

/// How the best candidate of generation `i` was judged.
proof fn lemma_course<E: Fn(&Vec<Step>, Complex64) -> Complex64>(
    eval: E,
    before: Seq<Node>,
    seed: u32,
    target: Seq<u8>,
    config: SearchConfig,
    start: (u64, u64),
    gens: Seq<Generation>,
    i: int,
) -> (end: (u64, u64))
    requires
        seed < before.len(),
        is_course(eval, before, seed, target, config, start, gens),
        0 <= i < gens.len(),
    ensures
        ({
            let g = gens[i];
            &&& seed < g.nodes.len()
            &&& g.best < g.nodes.len()
            &&& all_nodes(g.nodes, g.population)
            &&& may_judge(eval, g.nodes, seed, target, config.lambda, start)
            &&& may_judge(eval, g.nodes, g.best, target, config.lambda, end)
            &&& g.best_fitness == end.1
            &&& (g.best == seed && end == start) || float_lt(start.1, end.1)
        }),
    decreases i,
{
    if i == 0 {
        start
    } else {
        let bound = end_bound(start.0, capped(ops(tree(before, seed as int))), config.lambda);
        let end = lemma_course(eval, before, seed, target, config, start, gens, i - 1);
        let (g, h) = (gens[i - 1], gens[i]);
        assert(may_succeed(eval, target, config, bound, g, gens[i - 1 + 1]));
        let r = choose|r: Selection| #[trigger]
            may_select(eval, target, config, bound, g, r) && !r.over && h.best == r.best
                && h.best_fitness == r.best_fitness && if r.elites@.len() > 0 {
                bred(g.nodes, h.nodes, config, r.elites@, h.population)
            } else {
                h.nodes == g.nodes && h.population == g.population
            };
        let next = lemma_selection(eval, target, config, bound, g, r, end);
        lemma_judge_extends(eval, g.nodes, h.nodes, seed, target, config.lambda, start);
        lemma_judge_extends(eval, g.nodes, h.nodes, h.best, target, config.lambda, next);
        next
    }
}

/// How the best candidate is judged after a selection, when the best candidate before was judged
/// as `end`.
proof fn lemma_selection<E: Fn(&Vec<Step>, Complex64) -> Complex64>(
    eval: E,
    target: Seq<u8>,
    config: SearchConfig,
    bound: u64,
    g: Generation,
    r: Selection,
    end: (u64, u64),
) -> (j: (u64, u64))
    requires
        may_select(eval, target, config, bound, g, r),
        g.best < g.nodes.len(),
        all_nodes(g.nodes, g.population),
        may_judge(eval, g.nodes, g.best, target, config.lambda, end),
        g.best_fitness == end.1,
    ensures
        r.best < g.nodes.len(),
        may_judge(eval, g.nodes, r.best, target, config.lambda, j),
        r.best_fitness == j.1,
        r.over ==> j.0 == 0 && capped(ops(tree(g.nodes, r.best as int))) <= bound,
        !r.over ==> (r.best == g.best && j == end) || float_lt(end.1, j.1),
{
    let costs = costs_of(g.nodes, g.population);
    let n = g.population.len() as int;
    let (judged, order) = choose|judged: Seq<(u64, u64)>, order: Seq<usize>| #[trigger]
        selected(
            g.population,
            judged,
            costs,
            bound,
            g.best,
            g.best_fitness,
            config.elite_count,
            order,
            r,
        ) && all_judged(eval, g.nodes, g.population, target, config.lambda, judged);
    lemma_end_among(judged, costs, bound, n);
    match end_among(judged, costs, bound, n) {
        Some(c) => {
            assert(may_judge(eval, g.nodes, g.population[c], target, config.lambda, judged[c]));
            judged[c]
        },
        None => if n > 0 {
            let top = order[0] as int;
            assert(may_judge(eval, g.nodes, g.population[top], target, config.lambda, judged[top]));
            if float_lt(g.best_fitness, judged[top].1) {
                judged[top]
            } else {
                end
            }
        } else {
            end
        },
    }
}

/// A search ends with a candidate at distance zero from the target, or else with the seed or a
/// candidate that is fitter than the seed.
pub proof fn law_search_does_not_lose<E: Fn(&Vec<Step>, Complex64) -> Complex64, K: Fn() -> bool>(
    eval: E,
    in_time: K,
    before: Seq<Node>,
    seed: u32,
    target: Seq<u8>,
    config: SearchConfig,
    start: (u64, u64),
    gens: Seq<Generation>,
    after: Seq<Node>,
    r: SearchResult,
)
    requires
        seed < before.len(),
        is_search(eval, in_time, before, seed, target, config, start, gens, after, r),
    ensures
        r.best < after.len(),
        may_find(eval, after, seed, target, config.lambda, r),
{
    let g = gens.last();
    let bound = end_bound(start.0, capped(ops(tree(before, seed as int))), config.lambda);
    let end = lemma_course(eval, before, seed, target, config, start, gens, gens.len() - 1);
    if r.exact_match_found {
        let chosen = choose|chosen: Selection| #[trigger]
            may_select(eval, target, config, bound, g, chosen) && chosen.over && r.best
                == chosen.best && r.best_fitness == chosen.best_fitness;
        let next = lemma_selection(eval, target, config, bound, g, chosen, end);
        assert(may_find_judged(eval, after, seed, target, config.lambda, r, start, next));
    } else {
        assert(may_find_judged(eval, after, seed, target, config.lambda, r, start, end));
    }
}

/// The seed is judged in one way only.
pub open spec fn seed_decided<E: Fn(&Vec<Step>, Complex64) -> Complex64>(
    eval: E,
    nodes: Seq<Node>,
    seed: u32,
    target: Seq<u8>,
    lambda: u64,
    start: (u64, u64),
) -> bool {
    forall|j: (u64, u64)| #[trigger] may_judge(eval, nodes, seed, target, lambda, j) ==> j == start
}

/// When the seed is at distance zero from the target, it ends the search in the first generation, if
/// no fitter candidate does that is no dearer.
proof fn lemma_exact_seed<E: Fn(&Vec<Step>, Complex64) -> Complex64>(
    eval: E,
    before: Seq<Node>,
    seed: u32,
    target: Seq<u8>,
    config: SearchConfig,
    start: (u64, u64),
    gens: Seq<Generation>,
    chosen: Selection,
)
    requires
        seed < before.len(),
        is_course(eval, before, seed, target, config, start, gens),
        config.population_size > 0,
        start.0 == 0,
        seed_decided(eval, gens[0].nodes, seed, target, config.lambda, start),
        may_select(
            eval,
            target,
            config,
            end_bound(start.0, capped(ops(tree(before, seed as int))), config.lambda),
            gens[0],
            chosen,
        ),
    ensures
        chosen.over,
        !float_lt(chosen.best_fitness, start.1),
        float_lt(0, config.lambda) ==> capped(ops(tree(gens[0].nodes, chosen.best as int)))
            <= capped(ops(tree(before, seed as int))),
{
    let g = gens[0];
    let bound = end_bound(start.0, capped(ops(tree(before, seed as int))), config.lambda);
    let costs = costs_of(g.nodes, g.population);
    let n = g.population.len() as int;
    let (judged, order) = choose|judged: Seq<(u64, u64)>, order: Seq<usize>| #[trigger]
        selected(
            g.population,
            judged,
            costs,
            bound,
            g.best,
            g.best_fitness,
            config.elite_count,
            order,
            chosen,
        ) && all_judged(eval, g.nodes, g.population, target, config.lambda, judged);
    assert(may_judge(eval, g.nodes, g.population[0], target, config.lambda, judged[0]));
    assert(judged[0] == start);
    lemma_tree_extends(before, g.nodes, seed as int);
    assert(costs[0] <= bound);
    assert(ends(judged, costs, bound, 0));
    lemma_end_among(judged, costs, bound, n);
    let c = end_among(judged, costs, bound, n)->0;
    assert(chosen.best == g.population[c]);
    assert(costs[c] == capped(ops(tree(g.nodes, g.population[c] as int))));
}

/// A search from a seed at distance zero from the target ends in its first generation, if it is
/// not out of time before.
proof fn lemma_exact_search<E: Fn(&Vec<Step>, Complex64) -> Complex64, K: Fn() -> bool>(
    eval: E,
    in_time: K,
    before: Seq<Node>,
    seed: u32,
    target: Seq<u8>,
    config: SearchConfig,
    start: (u64, u64),
    gens: Seq<Generation>,
    after: Seq<Node>,
    r: SearchResult,
)
    requires
        seed < before.len(),
        is_search(eval, in_time, before, seed, target, config, start, gens, after, r),
        config.population_size > 0,
        start.0 == 0,
        seed_decided(eval, gens[0].nodes, seed, target, config.lambda, start),
    ensures
        r.generations_run == 0,
        r.exact_match_found ==> !float_lt(r.best_fitness, start.1),
        r.exact_match_found && float_lt(0, config.lambda) ==> capped(
            ops(tree(after, r.best as int)),
        ) <= capped(ops(tree(before, seed as int))),
{
    let bound = end_bound(start.0, capped(ops(tree(before, seed as int))), config.lambda);
    let g = gens[0];
    if gens.len() > 1 {
        let h = gens[1];
        assert(may_succeed(eval, target, config, bound, g, gens[0int + 1]));
        let s = choose|s: Selection| #[trigger]
            may_select(eval, target, config, bound, g, s) && !s.over && h.best == s.best
                && h.best_fitness == s.best_fitness && if s.elites@.len() > 0 {
                bred(g.nodes, h.nodes, config, s.elites@, h.population)
            } else {
                h.nodes == g.nodes && h.population == g.population
            };
        lemma_exact_seed(eval, before, seed, target, config, start, gens, s);
    }
    if r.exact_match_found {
        let chosen = choose|chosen: Selection| #[trigger]
            may_select(eval, target, config, bound, g, chosen) && chosen.over && r.best
                == chosen.best && r.best_fitness == chosen.best_fitness;
        lemma_exact_seed(eval, before, seed, target, config, start, gens, chosen);
    }
}

/// A search from a seed at distance zero from the target finds an exact match in its first
/// generation, if there is time for one, and it is no less fit than the seed. It has no more
/// operations than the seed, where operations count against a candidate.
pub proof fn law_exact_seed_is_found<E: Fn(&Vec<Step>, Complex64) -> Complex64, K: Fn() -> bool>(
    eval: E,
    in_time: K,
    before: Seq<Node>,
    seed: u32,
    target: Seq<u8>,
    config: SearchConfig,
    start: (u64, u64),
    gens: Seq<Generation>,
    after: Seq<Node>,
    r: SearchResult,
)
    requires
        seed < before.len(),
        is_search(eval, in_time, before, seed, target, config, start, gens, after, r),
        config.population_size > 0,
        start.0 == 0,
        seed_decided(eval, gens[0].nodes, seed, target, config.lambda, start),
        !call_ensures(in_time, (), false),
    ensures
        r.exact_match_found,
        r.generations_run == 0,
        !float_lt(r.best_fitness, start.1),
        float_lt(0, config.lambda) ==> capped(ops(tree(after, r.best as int))) <= capped(
            ops(tree(before, seed as int)),
        ),
{
    lemma_exact_search(eval, in_time, before, seed, target, config, start, gens, after, r);
}

/// The result of a search has the fitness that it says and is not less fit than the seed, unless an
/// exact match was found from a seed that is none: such a match may have more operations than the
/// seed. Nodes are only added.
pub proof fn law_search_is_not_less_fit<
    E: Fn(&Vec<Step>, Complex64) -> Complex64,
    K: Fn() -> bool,
>(
    eval: E,
    in_time: K,
    before: Seq<Node>,
    seed: u32,
    target: Seq<u8>,
    config: SearchConfig,
    start: (u64, u64),
    gens: Seq<Generation>,
    after: Seq<Node>,
    r: SearchResult,
)
    requires
        seed < before.len(),
        is_search(eval, in_time, before, seed, target, config, start, gens, after, r),
        seed_decided(eval, gens[0].nodes, seed, target, config.lambda, start),
        r.exact_match_found ==> start.0 == 0,
    ensures
        !float_lt(r.best_fitness, start.1),
        may_be_fitness(eval, after, r.best, target, config.lambda, r.best_fitness),
        extends(before, after),
{
    let last = gens.len() - 1;
    lemma_course_extends(eval, before, seed, target, config, start, gens, last);
    law_search_does_not_lose(
        eval,
        in_time,
        before,
        seed,
        target,
        config,
        start,
        gens,
        after,
        r,
    );
    let (a, b) = choose|a: (u64, u64), b: (u64, u64)| #[trigger]
        may_find_judged(eval, after, seed, target, config.lambda, r, a, b);
    assert(may_judge(eval, after, r.best, target, config.lambda, (b.0, r.best_fitness)));
    if r.exact_match_found {
        if config.population_size == 0 {
            lemma_no_candidates(eval, before, seed, target, config, start, gens, last);
        } else {
            lemma_exact_search(eval, in_time, before, seed, target, config, start, gens, after, r);
        }
    } else {
        let end = lemma_course(eval, before, seed, target, config, start, gens, last);
    }
}

/// Where there is no room for candidates, there never are any.
proof fn lemma_no_candidates<E: Fn(&Vec<Step>, Complex64) -> Complex64>(
    eval: E,
    before: Seq<Node>,
    seed: u32,
    target: Seq<u8>,
    config: SearchConfig,
    start: (u64, u64),
    gens: Seq<Generation>,
    i: int,
)
    requires
        is_course(eval, before, seed, target, config, start, gens),
        config.population_size == 0,
        0 <= i < gens.len(),
    ensures
        gens[i].population.len() == 0,
    decreases i,
{
    if i > 0 {
        let bound = end_bound(start.0, capped(ops(tree(before, seed as int))), config.lambda);
        lemma_no_candidates(eval, before, seed, target, config, start, gens, i - 1);
        assert(may_succeed(eval, target, config, bound, gens[i - 1], gens[i - 1 + 1]));
    }
}

/// Nodes are only added.
proof fn lemma_course_extends<E: Fn(&Vec<Step>, Complex64) -> Complex64>(
    eval: E,
    before: Seq<Node>,
    seed: u32,
    target: Seq<u8>,
    config: SearchConfig,
    start: (u64, u64),
    gens: Seq<Generation>,
    i: int,
)
    requires
        is_course(eval, before, seed, target, config, start, gens),
        0 <= i < gens.len(),
    ensures
        extends(before, gens[i].nodes),
    decreases i,
{
    if i > 0 {
        let bound = end_bound(start.0, capped(ops(tree(before, seed as int))), config.lambda);
        lemma_course_extends(eval, before, seed, target, config, start, gens, i - 1);
        assert(may_succeed(eval, target, config, bound, gens[i - 1], gens[i - 1 + 1]));
    }
}

/// Searches for a candidate with the values of the target at the sample points and few
/// operations, starting from `seed`, generation after generation, until `in_time` says that the
/// time is up or a candidate is at distance zero from the target. Of several such candidates the
/// fittest is the result; it is never dearer than a seed that is at distance zero itself, where
/// operations count against a candidate.
pub fn search<E: Fn(&Vec<Step>, Complex64) -> Complex64 + Sync, K: Fn() -> bool>(
    interner: &mut Interner,
    seed: u32,
    target: &Vec<u8>,
    config: &SearchConfig,
    eval: &E,
    in_time: &K,
) -> (r: SearchResult)
    requires
        old(interner).wf(),
        seed < old(interner).nodes().len(),
        evaluator(*eval),
        call_requires(*in_time, ()),
    ensures
        final(interner).wf(),
        extends(old(interner).nodes(), final(interner).nodes()),
        r.best < final(interner).nodes().len(),
        exists|start: (u64, u64), gens: Seq<Generation>| #[trigger]
            is_search(
                *eval,
                *in_time,
                old(interner).nodes(),
                seed,
                target@,
                *config,
                start,
                gens,
                final(interner).nodes(),
                r,
            ),
        consts_apart(old(interner).nodes()) ==> consts_apart(final(interner).nodes()),
{
    let ghost before = interner.nodes();
    proof {
        interner.lemma_wf();
    }
    let mut population = first_generation(interner, seed, config.population_size);
    let start = judge(interner, seed, target, config.lambda, eval);
    let mut best = seed;
    let mut best_fitness = start.1;
    let bound = if start.0 == 0 && lt(0, config.lambda) {
        capped_op_count(interner, seed)
    } else {
        u64::MAX
    };
    let mut generations_run: u64 = 0;
    let ghost mut gens: Seq<Generation> = seq![
        Generation { nodes: interner.nodes(), population: population@, best, best_fitness },
    ];
    proof {
        interner.lemma_wf();
        lemma_tree_extends(before, interner.nodes(), seed as int);
        assert(gens[0].nodes == interner.nodes());
    }
    loop
        invariant
            generations_run > 0 ==> call_ensures(*in_time, (), true),
            interner.wf(),
            before == old(interner).nodes(),
            extends(before, interner.nodes()),
            seed < before.len(),
            evaluator(*eval),
            call_requires(*in_time, ()),
            bound == end_bound(start.0, capped(ops(tree(before, seed as int))), config.lambda),
            is_course(*eval, before, seed, target@, *config, start, gens),
            gens.len() == generations_run + 1,
            gens.last() == (Generation {
                nodes: interner.nodes(),
                population: population@,
                best,
                best_fitness,
            }),
            consts_apart(before) ==> consts_apart(interner.nodes()),
        decreases u64::MAX - generations_run,
    {
        if generations_run == u64::MAX || !in_time() {
            let r = SearchResult { best, best_fitness, generations_run, exact_match_found: false };
            proof {
                let after = interner.nodes();
                assert(is_search(
                    *eval,
                    *in_time,
                    before,
                    seed,
                    target@,
                    *config,
                    start,
                    gens,
                    after,
                    r,
                ));
                law_search_does_not_lose(
                    *eval,
                    *in_time,
                    before,
                    seed,
                    target@,
                    *config,
                    start,
                    gens,
                    after,
                    r,
                );
            }
            return r;
        }
        proof {
            lemma_course(*eval, before, seed, target@, *config, start, gens, gens.len() - 1);
        }
        let judged = judge_all(interner, &population, target, config.lambda, eval);
        let costs = get_costs(interner, &population);
        let chosen = select(
            &population,
            &judged,
            &costs,
            bound,
            best,
            best_fitness,
            config.elite_count,
        );
        let ghost g = gens.last();
        proof {
            let order = choose|order: Seq<usize>| #[trigger]
                selected(
                    population@,
                    judged@,
                    costs@,
                    bound,
                    best,
                    best_fitness,
                    config.elite_count,
                    order,
                    chosen,
                );
            assert(selected(
                g.population,
                judged@,
                costs_of(g.nodes, g.population),
                bound,
                g.best,
                g.best_fitness,
                config.elite_count,
                order,
                chosen,
            ));
            assert(may_select(*eval, target@, *config, bound, g, chosen));
            assert forall|k: int| 0 <= k < chosen.elites@.len() implies (
            #[trigger] chosen.elites@[k]) < interner.nodes().len() by {
                assert(population@[order[k] as int] < interner.nodes().len());
            }
        }
        best = chosen.best;
        best_fitness = chosen.best_fitness;
        if chosen.over {
            let r = SearchResult {
                best,
                best_fitness,
                generations_run,
                exact_match_found: true,
            };
            proof {
                let after = interner.nodes();
                assert(is_search(
                    *eval,
                    *in_time,
                    before,
                    seed,
                    target@,
                    *config,
                    start,
                    gens,
                    after,
                    r,
                ));
                law_search_does_not_lose(
                    *eval,
                    *in_time,
                    before,
                    seed,
                    target@,
                    *config,
                    start,
                    gens,
                    after,
                    r,
                );
            }
            return r;
        }
        if chosen.elites.len() > 0 {
            population = breed(interner, &chosen.elites, config);
        }
        generations_run += 1;
        proof {
            interner.lemma_wf();
            let h = Generation {
                nodes: interner.nodes(),
                population: population@,
                best,
                best_fitness,
            };
            assert(may_succeed(*eval, target@, *config, bound, g, h));
            let longer = gens.push(h);
            assert forall|i: int| 0 <= i < longer.len() - 1 implies may_succeed(
                *eval,
                target@,
                *config,
                bound,
                #[trigger] longer[i],
                longer[i + 1],
            ) by {
                if i < gens.len() - 1 {
                    assert(may_succeed(*eval, target@, *config, bound, gens[i], gens[i + 1]));
                }
            }
            gens = longer;
        }
    }
}

} // verus!
