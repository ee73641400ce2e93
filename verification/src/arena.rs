//! A flat, indexable arena of expression nodes, and a hash-consing interner over it.
//!
//! Nothing here knows what the primitive means, only that it is a binary operator over two
//! child node indices.

use rustc_hash::FxHashMap;
use vstd::prelude::*;

use crate::complex::{may_be_within, may_exceed, within, Complex64};
use crate::config::MACHINE_TOLERANCE;
use crate::expr::{
    constants, law_separated_constants_are_kept, may_replace, mentions, stands_for, well_separated, Expr,
};
use crate::fx::{fx_get, fx_insert, fx_new};

verus! {

/// The index that stands for "no child", in leaves.
pub const NIL: u32 = 0xffff_ffff;

#[derive(Clone, Copy, Debug, PartialEq, Eq, Hash, Structural)]
pub enum Op {
    /// The single binary primitive `f(a, b)`.
    Prim,
    /// Leaf: a literal complex constant.
    Const,
    /// Leaf: the free variable `x`.
    Var,
}

#[derive(Clone, Copy, Debug, PartialEq, Eq, Structural)]
pub struct Node {
    pub op: Op,
    /// The index of the first child, or `NIL` in a leaf.
    pub a: u32,
    /// The index of the second child, or `NIL` in a leaf.
    pub b: u32,
    /// The value of a `Const`, and of nothing else.
    pub const_val: Option<Complex64>,
}

pub open spec fn prim_node(a: u32, b: u32) -> Node {
    Node { op: Op::Prim, a, b, const_val: None }
}

pub open spec fn const_node(v: Complex64) -> Node {
    Node { op: Op::Const, a: NIL, b: NIL, const_val: Some(v) }
}

pub open spec fn var_node() -> Node {
    Node { op: Op::Var, a: NIL, b: NIL, const_val: None }
}

impl Node {
    pub fn prim(a: u32, b: u32) -> (r: Self)
        ensures
            r == prim_node(a, b),
    {
        Node { op: Op::Prim, a, b, const_val: None }
    }

    pub fn constant(v: Complex64) -> (r: Self)
        ensures
            r == const_node(v),
    {
        Node { op: Op::Const, a: NIL, b: NIL, const_val: Some(v) }
    }

    pub fn var() -> (r: Self)
        ensures
            r == var_node(),
    {
        Node { op: Op::Var, a: NIL, b: NIL, const_val: None }
    }
}

/// Node `i` is a leaf without children or a primitive over two earlier nodes.
pub open spec fn node_ok(nodes: Seq<Node>, i: int) -> bool {
    let n = nodes[i];
    match n.op {
        Op::Var => n == var_node(),
        Op::Const => n.const_val is Some && n == const_node(n.const_val->0),
        Op::Prim => n == prim_node(n.a, n.b) && n.a < i && n.b < i,
    }
}

/// The nodes fit the index type, and every node comes after its children.
pub open spec fn arena_ok(nodes: Seq<Node>) -> bool {
    nodes.len() <= NIL && forall|i: int| 0 <= i < nodes.len() ==> #[trigger] node_ok(nodes, i)
}

/// The expression that node `id` is the root of.
pub open spec fn tree(nodes: Seq<Node>, id: int) -> Expr
    decreases id,
{
    if 0 <= id < nodes.len() {
        let n = nodes[id];
        match n.op {
            Op::Var => Expr::Var,
            Op::Const => Expr::Const(n.const_val->0),
            Op::Prim => if n.a < id && n.b < id {
                Expr::Prim(
                    Box::new(tree(nodes, n.a as int)),
                    Box::new(tree(nodes, n.b as int)),
                )
            } else {
                Expr::Var
            },
        }
    } else {
        Expr::Var
    }
}

/// `later` is `earlier` with further nodes behind it.
pub open spec fn extends(earlier: Seq<Node>, later: Seq<Node>) -> bool {
    earlier.len() <= later.len() && forall|i: int|
        0 <= i < earlier.len() ==> #[trigger] later[i] == earlier[i]
}

/// What a node stands for does not change when nodes are added.
pub proof fn lemma_tree_extends(earlier: Seq<Node>, later: Seq<Node>, id: int)
    requires
        extends(earlier, later),
        0 <= id < earlier.len(),
    ensures
        tree(later, id) == tree(earlier, id),
    decreases id,
{
    let n = earlier[id];
    assert(later[id] == n);
    if n.op == Op::Prim && n.a < id && n.b < id {
        lemma_tree_extends(earlier, later, n.a as int);
        lemma_tree_extends(earlier, later, n.b as int);
    }
}

/// All nodes keep what they stand for when nodes are added.
pub proof fn lemma_trees_extend(earlier: Seq<Node>, later: Seq<Node>)
    requires
        extends(earlier, later),
    ensures
        forall|id: int| 0 <= id < earlier.len() ==> #[trigger] tree(later, id) == tree(earlier, id),
{
    assert forall|id: int| 0 <= id < earlier.len() implies #[trigger] tree(later, id) == tree(
        earlier,
        id,
    ) by {
        lemma_tree_extends(earlier, later, id);
    }
}

#[derive(Debug)]
pub struct Arena {
    pub nodes: Vec<Node>,
}

impl Arena {
    pub open spec fn ok(self) -> bool {
        arena_ok(self.nodes@)
    }

    pub fn new() -> (r: Self)
        ensures
            r.nodes@ == Seq::<Node>::empty(),
    {
        Arena { nodes: Vec::new() }
    }

    pub fn get(&self, id: u32) -> (r: &Node)
        requires
            id < self.nodes@.len(),
        ensures
            *r == self.nodes@[id as int],
    {
        &self.nodes[id as usize]
    }

    pub fn len(&self) -> (r: usize)
        ensures
            r == self.nodes@.len(),
    {
        self.nodes.len()
    }

    pub fn is_empty(&self) -> (r: bool)
        ensures
            r == (self.nodes@.len() == 0),
    {
        self.nodes.len() == 0
    }

    /// Appends `node` and returns its index.
    pub fn push(&mut self, node: Node) -> (id: u32)
        requires
            old(self).nodes@.len() < NIL,
        ensures
            id == old(self).nodes@.len(),
            final(self).nodes@ == old(self).nodes@.push(node),
    {
        let id = self.nodes.len() as u32;
        self.nodes.push(node);
        id
    }
}

impl Clone for Arena {
    fn clone(&self) -> (r: Self)
        ensures
            r.nodes@ == self.nodes@,
    {
        Arena { nodes: self.nodes.clone() }
    }
}

impl Default for Arena {
    fn default() -> (r: Self)
        ensures
            r.nodes@ == Seq::<Node>::empty(),
    {
        Arena { nodes: Vec::new() }
    }
}

/// Node `i` is `f(a, b)`.
pub open spec fn prim_at(nodes: Seq<Node>, a: u32, b: u32, i: int) -> bool {
    0 <= i < nodes.len() && nodes[i] == prim_node(a, b)
}

/// Some node is `f(a, b)`.
pub open spec fn prim_known(nodes: Seq<Node>, a: u32, b: u32) -> bool {
    exists|i: int| prim_at(nodes, a, b, i)
}

/// Some node is the variable.
pub open spec fn var_known(nodes: Seq<Node>) -> bool {
    exists|i: int| 0 <= i < nodes.len() && #[trigger] nodes[i] == var_node()
}

/// The indices of the constants, in order.
pub open spec fn const_ids(nodes: Seq<Node>) -> Seq<u32>
    decreases nodes.len(),
{
    if nodes.len() == 0 {
        Seq::empty()
    } else {
        let before = const_ids(nodes.drop_last());
        if nodes.last().op == Op::Const {
            before.push((nodes.len() - 1) as u32)
        } else {
            before
        }
    }
}

/// The value of the `k`-th constant.
pub open spec fn const_value(nodes: Seq<Node>, k: int) -> Complex64 {
    nodes[const_ids(nodes)[k] as int].const_val->0
}

/// No node is held twice: there is one node at most for each pair of children, for the
/// variable, and for each constant.
pub open spec fn no_duplicates(nodes: Seq<Node>) -> bool {
    forall|i: int, j: int|
        0 <= i < nodes.len() && 0 <= j < nodes.len() && #[trigger] nodes[i] == #[trigger] nodes[j]
            ==> i == j
}

/// The nodes and the index that interning `f(a, b)` leads to.
pub open spec fn prim_step(nodes: Seq<Node>, a: u32, b: u32) -> (Seq<Node>, int) {
    if prim_known(nodes, a, b) {
        (nodes, choose|i: int| prim_at(nodes, a, b, i))
    } else {
        (nodes.push(prim_node(a, b)), nodes.len() as int)
    }
}

/// The nodes and the index that interning the variable leads to.
pub open spec fn var_step(nodes: Seq<Node>) -> (Seq<Node>, int) {
    if var_known(nodes) {
        (nodes, choose|i: int| 0 <= i < nodes.len() && #[trigger] nodes[i] == var_node())
    } else {
        (nodes.push(var_node()), nodes.len() as int)
    }
}

/// The first index at which `verdicts` is true, or its length.
pub open spec fn first_hit(verdicts: Seq<bool>) -> int
    decreases verdicts.len(),
{
    if verdicts.len() == 0 {
        0
    } else if verdicts[0] {
        0
    } else {
        1 + first_hit(verdicts.drop_first())
    }
}

/// The nodes and the index that interning `v` leads to when `verdicts` says of each constant
/// already there whether it is close enough to stand for `v`.
pub open spec fn const_step(nodes: Seq<Node>, v: Complex64, verdicts: Seq<bool>) -> (
    Seq<Node>,
    int,
) {
    let k = first_hit(verdicts);
    if k < verdicts.len() {
        (nodes, const_ids(nodes)[k] as int)
    } else {
        (nodes.push(const_node(v)), nodes.len() as int)
    }
}

/// A constant that is already there is close enough to itself.
pub open spec fn verdicts_reflexive(nodes: Seq<Node>, v: Complex64, verdicts: Seq<bool>) -> bool {
    verdicts.len() == const_ids(nodes).len() && forall|k: int|
        0 <= k < verdicts.len() && const_value(nodes, k) == v ==> #[trigger] verdicts[k]
}

/// `verdicts` is what may be found of the constants already there: whether each is `v` itself,
/// bit by bit, or the distance test finds it within the tolerance.
pub open spec fn verdicts_possible(nodes: Seq<Node>, v: Complex64, verdicts: Seq<bool>) -> bool {
    verdicts_reflexive(nodes, v, verdicts) && forall|k: int|
        0 <= k < verdicts.len() ==> if #[trigger] verdicts[k] {
            may_replace(const_value(nodes, k), v)
        } else {
            may_exceed(const_value(nodes, k), v, MACHINE_TOLERANCE)
        }
}

/// Any two constants were found farther apart than the tolerance, or at no distance that is a
/// number, when the later one was interned.
pub open spec fn consts_apart(nodes: Seq<Node>) -> bool {
    forall|j: int, k: int|
        0 <= j < k < const_ids(nodes).len() ==> may_exceed(
            #[trigger] const_value(nodes, j),
            #[trigger] const_value(nodes, k),
            MACHINE_TOLERANCE,
        )
}

/// The nodes and the index that interning `e` from the leaves up, left before right, leads to.
/// `verdicts` says, for each constant of `e` in order, which of the constants already there are
/// close enough to stand for it.
pub open spec fn intern_run(before: Seq<Node>, e: Expr, verdicts: Seq<Seq<bool>>) -> (
    Seq<Node>,
    int,
)
    decreases e,
{
    match e {
        Expr::Var => var_step(before),
        Expr::Const(v) => const_step(before, v, verdicts[0]),
        Expr::Prim(x, y) => {
            let n = constants(*x) as int;
            let (one, i) = intern_run(before, *x, verdicts.take(n));
            let (two, j) = intern_run(one, *y, verdicts.skip(n));
            prim_step(two, i as u32, j as u32)
        },
    }
}

/// `verdicts` is what the distance test may say while `e` is interned.
pub open spec fn run_possible(before: Seq<Node>, e: Expr, verdicts: Seq<Seq<bool>>) -> bool
    decreases e,
{
    verdicts.len() == constants(e) && match e {
        Expr::Var => true,
        Expr::Const(v) => verdicts_possible(before, v, verdicts[0]),
        Expr::Prim(x, y) => {
            let n = constants(*x) as int;
            run_possible(before, *x, verdicts.take(n)) && run_possible(
                intern_run(before, *x, verdicts.take(n)).0,
                *y,
                verdicts.skip(n),
            )
        },
    }
}

/// Interning `e` may lead from the nodes `before` to the nodes `after` and the index `id`.
pub open spec fn interned(before: Seq<Node>, e: Expr, after: Seq<Node>, id: int) -> bool {
    exists|verdicts: Seq<Seq<bool>>| #[trigger]
        run_possible(before, e, verdicts) && intern_run(before, e, verdicts) == (after, id)
}

/// Interning the two operands and then the primitive over them is interning the whole.
pub proof fn lemma_interned_prim(
    before: Seq<Node>,
    x: Expr,
    one: Seq<Node>,
    i: u32,
    y: Expr,
    two: Seq<Node>,
    j: u32,
)
    requires
        interned(before, x, one, i as int),
        interned(one, y, two, j as int),
    ensures
        ({
            let (after, id) = prim_step(two, i, j);
            interned(before, Expr::Prim(Box::new(x), Box::new(y)), after, id)
        }),
{
    let v = choose|v: Seq<Seq<bool>>| #[trigger]
        run_possible(before, x, v) && intern_run(before, x, v) == (one, i as int);
    let w = choose|w: Seq<Seq<bool>>| #[trigger]
        run_possible(one, y, w) && intern_run(one, y, w) == (two, j as int);
    let all = v + w;
    assert(v.len() == constants(x));
    assert(all.take(constants(x) as int) =~= v);
    assert(all.skip(constants(x) as int) =~= w);
    let e = Expr::Prim(Box::new(x), Box::new(y));
    assert(run_possible(before, e, all));
    assert(intern_run(before, e, all) == prim_step(two, i, j));
}

/// Interning never takes nodes away.
proof fn lemma_run_grows(before: Seq<Node>, e: Expr, verdicts: Seq<Seq<bool>>)
    ensures
        before.len() <= intern_run(before, e, verdicts).0.len(),
    decreases e,
{
    if let Expr::Prim(x, y) = e {
        let n = constants(*x) as int;
        lemma_run_grows(before, *x, verdicts.take(n));
        lemma_run_grows(intern_run(before, *x, verdicts.take(n)).0, *y, verdicts.skip(n));
    }
}

proof fn lemma_run(before: Seq<Node>, e: Expr, verdicts: Seq<Seq<bool>>)
    requires
        arena_ok(before),
        run_possible(before, e, verdicts),
        intern_run(before, e, verdicts).0.len() <= NIL,
    ensures
        ({
            let (after, id) = intern_run(before, e, verdicts);
            extends(before, after) && arena_ok(after) && 0 <= id < after.len() && stands_for(
                tree(after, id),
                e,
            )
        }),
    decreases e,
{
    let (after, id) = intern_run(before, e, verdicts);
    match e {
        Expr::Var => {
            lemma_arena_ok_push(before, var_node());
            assert(after[id] == var_node());
        },
        Expr::Const(v) => {
            lemma_arena_ok_push(before, const_node(v));
            lemma_first_hit(verdicts[0]);
            lemma_const_ids(before);
            let k = first_hit(verdicts[0]);
            if k < verdicts[0].len() {
                assert(verdicts[0][k]);
                assert(may_replace(const_value(before, k), v));
            } else {
                assert(after[id] == const_node(v));
            }
        },
        Expr::Prim(x, y) => {
            let n = constants(*x) as int;
            let (one, i) = intern_run(before, *x, verdicts.take(n));
            let (two, j) = intern_run(one, *y, verdicts.skip(n));
            lemma_run_grows(one, *y, verdicts.skip(n));
            lemma_run(before, *x, verdicts.take(n));
            lemma_run(one, *y, verdicts.skip(n));
            lemma_tree_extends(one, two, i);
            assert(after[id] == prim_node(i as u32, j as u32)) by {
                if prim_known(two, i as u32, j as u32) {
                    assert(prim_at(two, i as u32, j as u32, id));
                }
            }
            lemma_arena_ok_push(two, prim_node(i as u32, j as u32));
            lemma_tree_extends(two, after, i);
            lemma_tree_extends(two, after, j);
            assert(node_ok(after, id));
            assert(tree(after, id) == Expr::Prim(
                Box::new(tree(after, i)),
                Box::new(tree(after, j)),
            ));
        },
    }
}

/// What interning an expression leads to: the nodes that were there stay as they are, and the
/// new root stands for the expression.
pub proof fn law_interned_stands_for(before: Seq<Node>, e: Expr, after: Seq<Node>, id: int)
    requires
        arena_ok(before),
        after.len() <= NIL,
        interned(before, e, after, id),
    ensures
        extends(before, after),
        arena_ok(after),
        0 <= id < after.len(),
        stands_for(tree(after, id), e),
{
    let v = choose|v: Seq<Seq<bool>>| #[trigger]
        run_possible(before, e, v) && intern_run(before, e, v) == (after, id);
    lemma_run(before, e, v);
}

/// A node that is in order may be added.
pub proof fn lemma_arena_ok_push(nodes: Seq<Node>, n: Node)
    requires
        arena_ok(nodes),
        node_ok(nodes.push(n), nodes.len() as int),
    ensures
        nodes.len() < NIL ==> arena_ok(nodes.push(n)),
{
    let after = nodes.push(n);
    assert forall|i: int| 0 <= i < after.len() implies #[trigger] node_ok(after, i) by {
        if i < nodes.len() {
            assert(node_ok(nodes, i));
        }
    }
}

/// The indices of the constants are the indices of constants, all of them.
pub proof fn lemma_const_ids(nodes: Seq<Node>)
    requires
        nodes.len() <= NIL,
    ensures
        const_ids(nodes).len() <= nodes.len(),
        forall|k: int|
            0 <= k < const_ids(nodes).len() ==> (#[trigger] const_ids(nodes)[k]) < nodes.len()
                && nodes[const_ids(nodes)[k] as int].op == Op::Const,
        forall|i: int|
            0 <= i < nodes.len() && (#[trigger] nodes[i]).op == Op::Const ==> exists|k: int|
                0 <= k < const_ids(nodes).len() && #[trigger] const_ids(nodes)[k] == i,
    decreases nodes.len(),
{
    if nodes.len() > 0 {
        let before = nodes.drop_last();
        lemma_const_ids(before);
        assert forall|i: int|
            0 <= i < nodes.len() && (#[trigger] nodes[i]).op == Op::Const implies exists|k: int|
            0 <= k < const_ids(nodes).len() && #[trigger] const_ids(nodes)[k] == i by {
            if i < before.len() {
                assert(before[i] == nodes[i]);
                let k = choose|k: int|
                    0 <= k < const_ids(before).len() && #[trigger] const_ids(before)[k] == i;
                assert(const_ids(nodes)[k] == i);
            } else {
                assert(const_ids(nodes)[const_ids(nodes).len() - 1] == i);
            }
        }
    }
}

/// Adding a node adds an index to those of the constants when it is one.
proof fn lemma_const_ids_push(nodes: Seq<Node>, n: Node)
    ensures
        const_ids(nodes.push(n)) == (if n.op == Op::Const {
            const_ids(nodes).push(nodes.len() as u32)
        } else {
            const_ids(nodes)
        }),
{
    assert(nodes.push(n).drop_last() =~= nodes);
}

/// A node that is no constant leaves the constants as they are.
proof fn lemma_apart_push(nodes: Seq<Node>, n: Node)
    requires
        arena_ok(nodes),
        n.op != Op::Const,
    ensures
        consts_apart(nodes) ==> consts_apart(nodes.push(n)),
{
    lemma_const_ids_push(nodes, n);
    lemma_const_ids(nodes);
    assert forall|k: int| 0 <= k < const_ids(nodes).len() implies #[trigger] const_value(
        nodes.push(n),
        k,
    ) == const_value(nodes, k) by {
        assert(nodes.push(n)[const_ids(nodes)[k] as int] == nodes[const_ids(nodes)[k] as int]);
    }
}

/// Interning a constant keeps the constants apart: a new one is added only where the distance
/// test finds none within the tolerance.
pub proof fn law_constants_stay_apart(nodes: Seq<Node>, v: Complex64, verdicts: Seq<bool>)
    requires
        arena_ok(nodes),
        consts_apart(nodes),
        verdicts_possible(nodes, v, verdicts),
    ensures
        consts_apart(const_step(nodes, v, verdicts).0),
{
    lemma_first_hit(verdicts);
    if first_hit(verdicts) >= verdicts.len() {
        let after = nodes.push(const_node(v));
        let n = const_ids(nodes).len() as int;
        lemma_const_ids_push(nodes, const_node(v));
        lemma_const_ids(nodes);
        assert forall|j: int, k: int| 0 <= j < k < const_ids(after).len() implies may_exceed(
            #[trigger] const_value(after, j),
            #[trigger] const_value(after, k),
            MACHINE_TOLERANCE,
        ) by {
            assert(after[const_ids(nodes)[j] as int] == nodes[const_ids(nodes)[j] as int]);
            assert(const_value(after, j) == const_value(nodes, j));
            if k < n {
                assert(after[const_ids(nodes)[k] as int] == nodes[const_ids(nodes)[k] as int]);
                assert(const_value(after, k) == const_value(nodes, k));
            } else {
                assert(const_ids(after)[n] == nodes.len());
                assert(!verdicts[j]);
            }
        }
    }
}

/// What `first_hit` finds: no verdict before it is true, and its own is.
pub proof fn lemma_first_hit(verdicts: Seq<bool>)
    ensures
        0 <= first_hit(verdicts) <= verdicts.len(),
        first_hit(verdicts) < verdicts.len() ==> verdicts[first_hit(verdicts)],
        forall|k: int| 0 <= k < first_hit(verdicts) ==> !#[trigger] verdicts[k],
    decreases verdicts.len(),
{
    if verdicts.len() > 0 && !verdicts[0] {
        let rest = verdicts.drop_first();
        lemma_first_hit(rest);
        assert forall|k: int| 0 <= k < first_hit(verdicts) implies !#[trigger] verdicts[k] by {
            if k > 0 {
                assert(rest[k - 1] == verdicts[k]);
            }
        }
    }
}

/// The key under which `f(a, b)` is looked up.
spec fn pair_key(a: u32, b: u32) -> u64 {
    (a * 0x1_0000_0000 + b) as u64
}

fn get_pair_key(a: u32, b: u32) -> (r: u64)
    ensures
        r == pair_key(a, b),
{
    a as u64 * 0x1_0000_0000 + b as u64
}

/// Different pairs have different keys.
proof fn lemma_pair_key(a: u32, b: u32, c: u32, d: u32)
    requires
        pair_key(a, b) == pair_key(c, d),
    ensures
        a == c && b == d,
{
}

/// A hash-consing interner: structurally identical subexpressions always resolve to the same
/// node index, and no node is held twice.
pub struct Interner {
    pub arena: Arena,
    /// The index of `f(a, b)` under the key of `(a, b)`.
    prim_table: FxHashMap<u64, u32>,
    /// The constants with their indices, in order. Which of them stands for a value is decided
    /// by distance, so that round-off does not give rise to distinct nodes for one value.
    const_table: Vec<(Complex64, u32)>,
    /// The one variable node, once there is one.
    var_id: Option<u32>,
}

impl Interner {
    pub closed spec fn nodes(self) -> Seq<Node> {
        self.arena.nodes@
    }

    /// The expression that node `id` is the root of.
    pub open spec fn expr(self, id: u32) -> Expr {
        tree(self.nodes(), id as int)
    }

    pub closed spec fn wf(self) -> bool {
        let nodes = self.arena.nodes@;
        &&& arena_ok(nodes)
        &&& no_duplicates(nodes)
        &&& forall|a: u32, b: u32|
            self.prim_table@.contains_key(#[trigger] pair_key(a, b)) ==> prim_at(
                nodes,
                a,
                b,
                self.prim_table@[pair_key(a, b)] as int,
            )
        &&& forall|i: int|
            0 <= i < nodes.len() && (#[trigger] nodes[i]).op == Op::Prim
                ==> self.prim_table@.contains_key(pair_key(nodes[i].a, nodes[i].b))
        &&& self.const_table@.len() == const_ids(nodes).len()
        &&& forall|k: int|
            0 <= k < self.const_table@.len() ==> #[trigger] self.const_table@[k] == (
                const_value(nodes, k),
                const_ids(nodes)[k],
            )
        &&& match self.var_id {
            Some(i) => i < nodes.len() && nodes[i as int] == var_node(),
            None => !var_known(nodes),
        }
    }

    /// What well-formedness says of the nodes.
    pub proof fn lemma_wf(self)
        requires
            self.wf(),
        ensures
            arena_ok(self.nodes()),
            no_duplicates(self.nodes()),
    {
    }

    pub fn new() -> (r: Self)
        ensures
            r.wf(),
            r.nodes() == Seq::<Node>::empty(),
            consts_apart(r.nodes()),
    {
        Interner {
            arena: Arena::new(),
            prim_table: fx_new(),
            const_table: Vec::new(),
            var_id: None,
        }
    }

    /// Interns `f(a, b)`: the index of the node that is already there, or else of a new one.
    pub fn intern_prim(&mut self, a: u32, b: u32) -> (id: u32)
        requires
            old(self).wf(),
            a < old(self).nodes().len(),
            b < old(self).nodes().len(),
            prim_known(old(self).nodes(), a, b) || old(self).nodes().len() < NIL,
        ensures
            final(self).wf(),
            (final(self).nodes(), id as int) == prim_step(old(self).nodes(), a, b),
            extends(old(self).nodes(), final(self).nodes()),
            id < final(self).nodes().len(),
            final(self).nodes()[id as int] == prim_node(a, b),
            final(self).expr(id) == Expr::Prim(
                Box::new(old(self).expr(a)),
                Box::new(old(self).expr(b)),
            ),
            consts_apart(old(self).nodes()) ==> consts_apart(final(self).nodes()),
    {
        let ghost before = self.arena.nodes@;
        let key = get_pair_key(a, b);
        if let Some(id) = fx_get(&self.prim_table, &key) {
            proof {
                assert(prim_at(before, a, b, *id as int));
                assert(before[*id as int] == prim_node(a, b));
                assert(node_ok(before, *id as int));
            }
            return *id;
        }
        proof {
            if prim_known(before, a, b) {
                let i = choose|i: int| prim_at(before, a, b, i);
                assert(before[i].op == Op::Prim);
            }
        }
        let id = self.arena.push(Node::prim(a, b));
        fx_insert(&mut self.prim_table, key, id);
        proof {
            let after = self.arena.nodes@;
            lemma_const_ids_push(before, prim_node(a, b));
            lemma_apart_push(before, prim_node(a, b));
            lemma_const_ids(before);
            lemma_tree_extends(before, after, a as int);
            lemma_tree_extends(before, after, b as int);
            assert(after[id as int] == prim_node(a, b));
            assert(tree(after, id as int) == Expr::Prim(
                Box::new(tree(after, a as int)),
                Box::new(tree(after, b as int)),
            ));
            assert forall|i: int| 0 <= i < after.len() implies #[trigger] node_ok(after, i) by {
                if i < before.len() {
                    assert(node_ok(before, i));
                }
            }
            assert forall|i: int, j: int|
                0 <= i < after.len() && 0 <= j < after.len() && #[trigger] after[i]
                    == #[trigger] after[j] implies i == j by {
                if i < before.len() && j < before.len() {
                    assert(before[i] == before[j]);
                } else if i < before.len() {
                    assert(prim_at(before, a, b, i));
                } else if j < before.len() {
                    assert(prim_at(before, a, b, j));
                }
            }
            assert forall|c: u32, d: u32|
                self.prim_table@.contains_key(#[trigger] pair_key(c, d)) implies prim_at(
                after,
                c,
                d,
                self.prim_table@[pair_key(c, d)] as int,
            ) by {
                if pair_key(c, d) == pair_key(a, b) {
                    lemma_pair_key(a, b, c, d);
                }
            }
            assert forall|k: int|
                0 <= k < self.const_table@.len() implies #[trigger] self.const_table@[k] == (
                const_value(after, k),
                const_ids(after)[k],
            ) by {
                assert(after[const_ids(before)[k] as int] == before[const_ids(before)[k] as int]);
            }
            if var_known(after) {
                let i = choose|i: int| 0 <= i < after.len() && #[trigger] after[i] == var_node();
                assert(before[i] == var_node());
            }
        }
        id
    }

    /// Interns the free variable, always under the same index.
    pub fn intern_var(&mut self) -> (id: u32)
        requires
            old(self).wf(),
            var_known(old(self).nodes()) || old(self).nodes().len() < NIL,
        ensures
            final(self).wf(),
            (final(self).nodes(), id as int) == var_step(old(self).nodes()),
            extends(old(self).nodes(), final(self).nodes()),
            id < final(self).nodes().len(),
            final(self).nodes()[id as int] == var_node(),
            final(self).expr(id) == Expr::Var,
            consts_apart(old(self).nodes()) ==> consts_apart(final(self).nodes()),
    {
        let ghost before = self.arena.nodes@;
        if let Some(id) = self.var_id {
            proof {
                let i = choose|i: int| 0 <= i < before.len() && #[trigger] before[i] == var_node();
                assert(before[id as int] == before[i]);
            }
            return id;
        }
        let id = self.arena.push(Node::var());
        self.var_id = Some(id);
        proof {
            let after = self.arena.nodes@;
            lemma_const_ids_push(before, var_node());
            lemma_const_ids(before);
            lemma_apart_push(before, var_node());
            assert(after[id as int] == var_node());
            assert forall|i: int| 0 <= i < after.len() implies #[trigger] node_ok(after, i) by {
                if i < before.len() {
                    assert(node_ok(before, i));
                }
            }
            assert forall|i: int, j: int|
                0 <= i < after.len() && 0 <= j < after.len() && #[trigger] after[i]
                    == #[trigger] after[j] implies i == j by {
                if i < before.len() && j < before.len() {
                    assert(before[i] == before[j]);
                }
            }
            assert forall|c: u32, d: u32|
                self.prim_table@.contains_key(#[trigger] pair_key(c, d)) implies prim_at(
                after,
                c,
                d,
                self.prim_table@[pair_key(c, d)] as int,
            ) by {
                assert(prim_at(before, c, d, self.prim_table@[pair_key(c, d)] as int));
            }
            assert forall|k: int|
                0 <= k < self.const_table@.len() implies #[trigger] self.const_table@[k] == (
                const_value(after, k),
                const_ids(after)[k],
            ) by {
                assert(after[const_ids(before)[k] as int] == before[const_ids(before)[k] as int]);
            }
        }
        id
    }

    /// Whether each constant already there, in order, is `v` or within the tolerance of it.
    pub fn constant_verdicts(&self, v: Complex64) -> (verdicts: Vec<bool>)
        requires
            self.wf(),
        ensures
            verdicts_possible(self.nodes(), v, verdicts@),
    {
        let mut verdicts: Vec<bool> = Vec::new();
        let mut k: usize = 0;
        while k < self.const_table.len()
            invariant
                self.wf(),
                k <= self.const_table@.len(),
                verdicts@.len() == k,
                forall|j: int|
                    0 <= j < k ==> if #[trigger] verdicts@[j] {
                        may_replace(const_value(self.nodes(), j), v)
                    } else {
                        may_exceed(const_value(self.nodes(), j), v, MACHINE_TOLERANCE)
                    },
                forall|j: int|
                    0 <= j < k && const_value(self.nodes(), j) == v ==> #[trigger] verdicts@[j],
            decreases self.const_table@.len() - k,
        {
            assert(self.const_table@[k as int].0 == const_value(self.nodes(), k as int));
            let held = self.const_table[k].0;
            verdicts.push(held == v || within(held, v, MACHINE_TOLERANCE));
            k += 1;
        }
        verdicts
    }

    /// Interns `v`, given for each constant already there whether it is close enough to stand
    /// for `v`: the index of the first that is, or else of a new node.
    pub fn intern_const_with(&mut self, v: Complex64, verdicts: &Vec<bool>) -> (id: u32)
        requires
            old(self).wf(),
            verdicts_reflexive(old(self).nodes(), v, verdicts@),
            old(self).nodes().len() < NIL,
        ensures
            final(self).wf(),
            (final(self).nodes(), id as int) == const_step(old(self).nodes(), v, verdicts@),
            extends(old(self).nodes(), final(self).nodes()),
            id < final(self).nodes().len(),
            final(self).nodes()[id as int].op == Op::Const,
    {
        let ghost before = self.arena.nodes@;
        proof {
            lemma_first_hit(verdicts@);
            lemma_const_ids(before);
        }
        let mut k: usize = 0;
        while k < verdicts.len()
            invariant
                self.wf(),
                self.arena.nodes@ == before,
                k <= verdicts@.len(),
                verdicts@.len() == self.const_table@.len(),
                k <= first_hit(verdicts@) <= verdicts@.len(),
                verdicts_reflexive(before, v, verdicts@),
                first_hit(verdicts@) < verdicts@.len() ==> verdicts@[first_hit(verdicts@)],
                forall|j: int| 0 <= j < first_hit(verdicts@) ==> !#[trigger] verdicts@[j],
                self == old(self),
            decreases verdicts@.len() - k,
        {
            if verdicts[k] {
                proof {
                    lemma_const_ids(before);
                    assert(self.const_table@[k as int].1 == const_ids(before)[k as int]);
                    if k < first_hit(verdicts@) {
                        assert(!verdicts@[k as int]);
                    }
                }
                return self.const_table[k].1;
            }
            k += 1;
        }
        let id = self.arena.push(Node::constant(v));
        self.const_table.push((v, id));
        proof {
            let after = self.arena.nodes@;
            lemma_const_ids(before);
            lemma_const_ids_push(before, const_node(v));
            assert(after[id as int] == const_node(v));
            assert forall|i: int| 0 <= i < after.len() implies #[trigger] node_ok(after, i) by {
                if i < before.len() {
                    assert(node_ok(before, i));
                }
            }
            assert forall|i: int| 0 <= i < before.len() implies #[trigger] before[i] != const_node(
                v,
            ) by {
                if before[i] == const_node(v) {
                    let j = choose|j: int|
                        0 <= j < const_ids(before).len() && #[trigger] const_ids(before)[j] == i;
                    assert(const_value(before, j) == v);
                    assert(verdicts@[j]);
                }
            }
            assert forall|i: int, j: int|
                0 <= i < after.len() && 0 <= j < after.len() && #[trigger] after[i]
                    == #[trigger] after[j] implies i == j by {
                if i < before.len() && j < before.len() {
                    assert(before[i] == before[j]);
                }
            }
            assert forall|c: u32, d: u32|
                self.prim_table@.contains_key(#[trigger] pair_key(c, d)) implies prim_at(
                after,
                c,
                d,
                self.prim_table@[pair_key(c, d)] as int,
            ) by {
                assert(prim_at(before, c, d, self.prim_table@[pair_key(c, d)] as int));
            }
            assert forall|k: int|
                0 <= k < self.const_table@.len() implies #[trigger] self.const_table@[k] == (
                const_value(after, k),
                const_ids(after)[k],
            ) by {
                if k < const_ids(before).len() {
                    assert(after[const_ids(before)[k] as int] == before[const_ids(
                        before,
                    )[k] as int]);
                }
            }
            if var_known(after) {
                let i = choose|i: int| 0 <= i < after.len() && #[trigger] after[i] == var_node();
                assert(before[i] == var_node());
            }
        }
        id
    }

    /// Interns a literal constant: the index of the first constant that is `v` or whose distance
    /// from `v` comes out within the tolerance, or else of a new node.
    pub fn intern_const(&mut self, v: Complex64) -> (id: u32)
        requires
            old(self).wf(),
            old(self).nodes().len() < NIL,
        ensures
            final(self).wf(),
            exists|verdicts: Seq<bool>|
                verdicts_possible(old(self).nodes(), v, verdicts) && (
                final(self).nodes(),
                id as int,
                ) == #[trigger] const_step(old(self).nodes(), v, verdicts),
            extends(old(self).nodes(), final(self).nodes()),
            id < final(self).nodes().len(),
            final(self).expr(id) matches Expr::Const(c) && may_replace(c, v),
            const_ids(old(self).nodes()).len() == 0 ==> final(self).nodes() == old(
                self,
            ).nodes().push(const_node(v)),
            old(self).nodes().contains(const_node(v)) ==> final(self).nodes() == old(self).nodes(),
            consts_apart(old(self).nodes()) ==> consts_apart(final(self).nodes()),
    {
        let verdicts = self.constant_verdicts(v);
        let ghost before = self.arena.nodes@;
        proof {
            lemma_first_hit(verdicts@);
            lemma_const_ids(before);
        }
        let id = self.intern_const_with(v, &verdicts);
        proof {
            if consts_apart(before) {
                law_constants_stay_apart(before, v, verdicts@);
            }
            let k = first_hit(verdicts@);
            if k < verdicts@.len() {
                assert(may_replace(const_value(before, k), v));
            }
            if before.contains(const_node(v)) {
                let i = before.index_of(const_node(v));
                assert(before[i] == const_node(v));
                let j = choose|j: int|
                    0 <= j < const_ids(before).len() && #[trigger] const_ids(before)[j] == i;
                assert(const_value(before, j) == v);
                assert(verdicts@[j]);
            }
        }
        id
    }

    pub fn node(&self, id: u32) -> (r: &Node)
        requires
            id < self.nodes().len(),
        ensures
            *r == self.nodes()[id as int],
    {
        self.arena.get(id)
    }

    pub fn len(&self) -> (r: usize)
        ensures
            r == self.nodes().len(),
    {
        self.arena.len()
    }

    /// The arena alone, without the lookup tables.
    pub fn into_arena(self) -> (r: Arena)
        ensures
            r.nodes@ == self.nodes(),
    {
        self.arena
    }
}

impl Default for Interner {
    fn default() -> (r: Self)
        ensures
            r.wf(),
            r.nodes() == Seq::<Node>::empty(),
            consts_apart(r.nodes()),
    {
        Self::new()
    }
}

/// Interning an expression keeps the constants apart.
pub proof fn law_interned_constants_are_apart(
    before: Seq<Node>,
    e: Expr,
    after: Seq<Node>,
    id: int,
)
    requires
        arena_ok(before),
        consts_apart(before),
        interned(before, e, after, id),
        after.len() <= NIL,
    ensures
        consts_apart(after),
{
    let verdicts = choose|verdicts: Seq<Seq<bool>>| #[trigger]
        run_possible(before, e, verdicts) && intern_run(before, e, verdicts) == (after, id);
    lemma_run_apart(before, e, verdicts);
}

proof fn lemma_run_apart(before: Seq<Node>, e: Expr, verdicts: Seq<Seq<bool>>)
    requires
        arena_ok(before),
        consts_apart(before),
        run_possible(before, e, verdicts),
        intern_run(before, e, verdicts).0.len() <= NIL,
    ensures
        consts_apart(intern_run(before, e, verdicts).0),
    decreases e,
{
    match e {
        Expr::Var => {
            lemma_apart_push(before, var_node());
        },
        Expr::Const(v) => {
            law_constants_stay_apart(before, v, verdicts[0]);
        },
        Expr::Prim(x, y) => {
            let n = constants(*x) as int;
            let (one, i) = intern_run(before, *x, verdicts.take(n));
            let (two, j) = intern_run(one, *y, verdicts.skip(n));
            lemma_run_grows(one, *y, verdicts.skip(n));
            lemma_run(before, *x, verdicts.take(n));
            lemma_run(one, *y, verdicts.skip(n));
            lemma_run_apart(before, *x, verdicts.take(n));
            lemma_run_apart(one, *y, verdicts.skip(n));
            lemma_apart_push(two, prim_node(i as u32, j as u32));
        },
    }
}

/// All constants among the nodes are constants of `e`.
spec fn consts_from(nodes: Seq<Node>, e: Expr) -> bool {
    forall|i: int|
        0 <= i < nodes.len() && (#[trigger] nodes[i]).op == Op::Const ==> mentions(
            e,
            nodes[i].const_val->0,
        )
}

/// Interning a part of `whole` adds constants of `whole` only.
proof fn lemma_run_from(before: Seq<Node>, e: Expr, verdicts: Seq<Seq<bool>>, whole: Expr)
    requires
        consts_from(before, whole),
        forall|v: Complex64| #[trigger] mentions(e, v) ==> mentions(whole, v),
    ensures
        consts_from(intern_run(before, e, verdicts).0, whole),
    decreases e,
{
    match e {
        Expr::Var => {},
        Expr::Const(v) => {
            assert(mentions(e, v));
        },
        Expr::Prim(x, y) => {
            let n = constants(*x) as int;
            assert forall|v: Complex64| #[trigger] mentions(*x, v) implies mentions(whole, v) by {
                assert(mentions(e, v));
            }
            assert forall|v: Complex64| #[trigger] mentions(*y, v) implies mentions(whole, v) by {
                assert(mentions(e, v));
            }
            let (one, i) = intern_run(before, *x, verdicts.take(n));
            lemma_run_from(before, *x, verdicts.take(n), whole);
            lemma_run_from(one, *y, verdicts.skip(n), whole);
        },
    }
}

/// The constants of an expression are among the nodes.
proof fn lemma_tree_from(nodes: Seq<Node>, id: int, e: Expr)
    requires
        consts_from(nodes, e),
        0 <= id < nodes.len(),
    ensures
        forall|v: Complex64| #[trigger] mentions(tree(nodes, id), v) ==> mentions(e, v),
    decreases id,
{
    let n = nodes[id];
    if n.op == Op::Prim && n.a < id && n.b < id {
        lemma_tree_from(nodes, n.a as int, e);
        lemma_tree_from(nodes, n.b as int, e);
        assert forall|v: Complex64| #[trigger] mentions(tree(nodes, id), v) implies mentions(e, v) by {
            assert(mentions(tree(nodes, n.a as int), v) || mentions(tree(nodes, n.b as int), v));
        }
    }
}

/// An expression whose constants are well separated is held as it is by an interner that held
/// nothing before.
pub proof fn law_separated_expression_is_kept(e: Expr, after: Seq<Node>, id: int)
    requires
        after.len() <= NIL,
        interned(Seq::empty(), e, after, id),
        well_separated(e, e),
    ensures
        tree(after, id) == e,
{
    let none = Seq::<Node>::empty();
    let verdicts = choose|verdicts: Seq<Seq<bool>>| #[trigger]
        run_possible(none, e, verdicts) && intern_run(none, e, verdicts) == (after, id);
    law_interned_stands_for(none, e, after, id);
    lemma_run_from(none, e, verdicts, e);
    lemma_tree_from(after, id, e);
    law_separated_constants_are_kept(tree(after, id), e);
}

/// Structurally identical subexpressions resolve to the same index: two nodes of a well-formed
/// interner that stand for the same expression are one node.
pub proof fn law_same_expression_same_index(nodes: Seq<Node>, i: int, j: int)
    requires
        arena_ok(nodes),
        no_duplicates(nodes),
        0 <= i < nodes.len(),
        0 <= j < nodes.len(),
        tree(nodes, i) == tree(nodes, j),
    ensures
        i == j,
    decreases i,
{
    assert(node_ok(nodes, i));
    assert(node_ok(nodes, j));
    let (m, n) = (nodes[i], nodes[j]);
    if m.op == Op::Prim {
        assert(n.op == Op::Prim);
        let e = tree(nodes, i);
        assert(e == Expr::Prim(
            Box::new(tree(nodes, m.a as int)),
            Box::new(tree(nodes, m.b as int)),
        ));
        assert(tree(nodes, j) == Expr::Prim(
            Box::new(tree(nodes, n.a as int)),
            Box::new(tree(nodes, n.b as int)),
        ));
        law_same_expression_same_index(nodes, m.a as int, n.a as int);
        law_same_expression_same_index(nodes, m.b as int, n.b as int);
    }
    assert(m == n);
}

/// Interning the same pair of children twice gives the same index, and nothing is added the
/// second time.
pub proof fn law_prim_interned_twice(nodes: Seq<Node>, a: u32, b: u32)
    ensures
        prim_step(prim_step(nodes, a, b).0, a, b) == prim_step(nodes, a, b),
{
    if !prim_known(nodes, a, b) {
        let after = prim_step(nodes, a, b).0;
        assert(prim_at(after, a, b, nodes.len() as int));
        let i = choose|i: int| prim_at(after, a, b, i);
        if i < nodes.len() {
            assert(prim_at(nodes, a, b, i));
        }
    }
}

/// Different pairs of children never share an index.
pub proof fn law_distinct_children_do_not_collapse(
    nodes: Seq<Node>,
    a: u32,
    b: u32,
    c: u32,
    d: u32,
)
    requires
        (a, b) != (c, d),
    ensures
        prim_step(prim_step(nodes, a, b).0, c, d).1 != prim_step(nodes, a, b).1,
{
    let (after, i) = prim_step(nodes, a, b);
    assert(after[i] == prim_node(a, b));
    if prim_known(after, c, d) {
        let j = choose|j: int| prim_at(after, c, d, j);
        assert(after[j] == prim_node(c, d));
    } else {
        assert(prim_step(after, c, d).1 == after.len());
        assert(i < after.len());
    }
}

/// The variable is interned once: a second time gives the same index and adds nothing.
pub proof fn law_var_is_singleton(nodes: Seq<Node>)
    ensures
        var_step(var_step(nodes).0) == var_step(nodes),
{
    if !var_known(nodes) {
        let after = var_step(nodes).0;
        assert(after[nodes.len() as int] == var_node());
        let i = choose|i: int| 0 <= i < after.len() && #[trigger] after[i] == var_node();
        if i < nodes.len() {
            assert(nodes[i] == var_node());
        }
    }
}

/// The distance test says the same of two constants each time, whichever of them comes first.
pub open spec fn distances_agree() -> bool {
    forall|a: Complex64, b: Complex64| #[trigger]
        may_exceed(a, b, MACHINE_TOLERANCE) ==> !may_be_within(a, b, MACHINE_TOLERANCE)
            && !may_be_within(b, a, MACHINE_TOLERANCE)
}

/// Where the distance test says the same each time, there is one verdict only.
pub proof fn lemma_verdicts_agree(
    nodes: Seq<Node>,
    v: Complex64,
    first: Seq<bool>,
    second: Seq<bool>,
)
    requires
        distances_agree(),
        verdicts_possible(nodes, v, first),
        verdicts_possible(nodes, v, second),
    ensures
        first == second,
{
    assert forall|k: int| 0 <= k < first.len() implies #[trigger] first[k] == second[k] by {
        let c = const_value(nodes, k);
        assert(may_exceed(c, v, MACHINE_TOLERANCE) ==> !may_be_within(c, v, MACHINE_TOLERANCE));
    }
    assert(first =~= second);
}

/// No two constants may be found within the tolerance.
pub open spec fn separated(nodes: Seq<Node>) -> bool {
    forall|i: int, j: int|
        0 <= i < j < nodes.len() && (#[trigger] nodes[i]).op == Op::Const && (
        #[trigger] nodes[j]).op == Op::Const ==> !may_be_within(
            nodes[i].const_val->0,
            nodes[j].const_val->0,
            MACHINE_TOLERANCE,
        )
}

/// Constants that were once found apart are separated, whichever of them comes first, where the
/// distance test says the same each time.
pub proof fn law_constants_apart_are_separated(nodes: Seq<Node>)
    requires
        nodes.len() <= NIL,
        consts_apart(nodes),
        distances_agree(),
    ensures
        separated(nodes),
        forall|i: int, j: int|
            0 <= i < nodes.len() && 0 <= j < nodes.len() && i != j && (#[trigger] nodes[i]).op
                == Op::Const && (#[trigger] nodes[j]).op == Op::Const ==> !may_be_within(
                nodes[i].const_val->0,
                nodes[j].const_val->0,
                MACHINE_TOLERANCE,
            ),
{
    let ids = const_ids(nodes);
    lemma_const_ids(nodes);
    assert forall|i: int, j: int|
        0 <= i < nodes.len() && 0 <= j < nodes.len() && i != j && (#[trigger] nodes[i]).op
            == Op::Const && (#[trigger] nodes[j]).op == Op::Const implies !may_be_within(
        nodes[i].const_val->0,
        nodes[j].const_val->0,
        MACHINE_TOLERANCE,
    ) by {
        let k = choose|k: int| 0 <= k < ids.len() && #[trigger] ids[k] == i;
        let m = choose|m: int| 0 <= m < ids.len() && #[trigger] ids[m] == j;
        if k < m {
            assert(may_exceed(const_value(nodes, k), const_value(nodes, m), MACHINE_TOLERANCE));
        } else {
            assert(may_exceed(const_value(nodes, m), const_value(nodes, k), MACHINE_TOLERANCE));
        }
    }
}

/// The distance test can only go one way between `v` and the constants already there.
pub open spec fn decided(nodes: Seq<Node>, v: Complex64) -> bool {
    forall|k: int|
        0 <= k < const_ids(nodes).len() ==> !(may_be_within(
            #[trigger] const_value(nodes, k),
            v,
            MACHINE_TOLERANCE,
        ) && may_exceed(const_value(nodes, k), v, MACHINE_TOLERANCE))
}

/// Interning the same constant twice gives the same index, and nothing is added the
/// second time, when the distance test can only go one way.
pub proof fn law_const_interned_twice(
    nodes: Seq<Node>,
    v: Complex64,
    first: Seq<bool>,
    second: Seq<bool>,
)
    requires
        arena_ok(nodes),
        decided(nodes, v),
        verdicts_possible(nodes, v, first),
        verdicts_possible(const_step(nodes, v, first).0, v, second),
    ensures
        const_step(const_step(nodes, v, first).0, v, second) == const_step(nodes, v, first),
{
    let after = const_step(nodes, v, first).0;
    let k = first_hit(first);
    lemma_first_hit(first);
    lemma_first_hit(second);
    lemma_const_ids(nodes);
    lemma_const_ids_push(nodes, const_node(v));
    assert forall|j: int| 0 <= j < first.len() implies #[trigger] first[j] == second[j] by {
        assert(after[const_ids(nodes)[j] as int] == nodes[const_ids(nodes)[j] as int]);
        assert(const_value(after, j) == const_value(nodes, j));
        assert(second[j] == second[j]);
    }
    let m = first_hit(second);
    if k < first.len() {
        if m < k {
            assert(first[m] == second[m]);
        }
        if m > k {
            assert(first[k] == second[k]);
            assert(!second[k]);
        }
    } else {
        let last = first.len() as int;
        assert(const_ids(after)[last] == nodes.len());
        assert(const_value(after, last) == v);
        assert(second[last]);
        if m < last {
            assert(first[m] == second[m]);
        }
    }
}

} // verus!
