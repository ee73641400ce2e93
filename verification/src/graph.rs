//! Which nodes an expression is made of, and in which order they are visited.

use rustc_hash::FxHashMap;
use vstd::prelude::*;
use vstd::set_lib::{lemma_int_range, lemma_len_subset, set_int_range};

use crate::arena::{arena_ok, extends, node_ok, Interner, Node, Op};
use crate::fx::{fx_get, fx_insert, fx_new};

verus! {

/// Node `k` is a part of the expression rooted at `root`, the root among them.
pub open spec fn reaches(nodes: Seq<Node>, root: int, k: int) -> bool
    decreases root,
{
    k == root || (0 <= root < nodes.len() && nodes[root].op == Op::Prim && nodes[root].a < root
        && nodes[root].b < root && (reaches(nodes, nodes[root].a as int, k) || reaches(
        nodes,
        nodes[root].b as int,
        k,
    )))
}

/// Parts come before the whole.
pub proof fn lemma_reaches_below(nodes: Seq<Node>, root: int, k: int)
    requires
        arena_ok(nodes),
        0 <= root < nodes.len(),
        reaches(nodes, root, k),
    ensures
        0 <= k <= root,
    decreases root,
{
    if k != root {
        assert(node_ok(nodes, root));
        let n = nodes[root];
        if reaches(nodes, n.a as int, k) {
            lemma_reaches_below(nodes, n.a as int, k);
        } else {
            lemma_reaches_below(nodes, n.b as int, k);
        }
    }
}

/// A part of a part is a part.
pub proof fn lemma_reaches_through(nodes: Seq<Node>, root: int, mid: int, k: int)
    requires
        reaches(nodes, root, mid),
        reaches(nodes, mid, k),
    ensures
        reaches(nodes, root, k),
    decreases root,
{
    if mid != root {
        let n = nodes[root];
        if reaches(nodes, n.a as int, mid) {
            lemma_reaches_through(nodes, n.a as int, mid, k);
        } else {
            lemma_reaches_through(nodes, n.b as int, mid, k);
        }
    }
}

/// The children of a part are parts.
pub proof fn lemma_reaches_children(nodes: Seq<Node>, root: int, k: int)
    requires
        arena_ok(nodes),
        0 <= root < nodes.len(),
        reaches(nodes, root, k),
        nodes[k].op == Op::Prim,
    ensures
        reaches(nodes, root, nodes[k].a as int),
        reaches(nodes, root, nodes[k].b as int),
{
    lemma_reaches_below(nodes, root, k);
    assert(node_ok(nodes, k));
    let n = nodes[k];
    assert(reaches(nodes, n.a as int, n.a as int));
    assert(reaches(nodes, n.b as int, n.b as int));
    assert(reaches(nodes, k, n.a as int));
    assert(reaches(nodes, k, n.b as int));
    lemma_reaches_through(nodes, root, k, n.a as int);
    lemma_reaches_through(nodes, root, k, n.b as int);
}

/// With every node, its children are in `set`.
pub open spec fn closed_under_children(nodes: Seq<Node>, set: Set<u32>) -> bool {
    forall|k: u32|
        #![trigger set.contains(k)]
        set.contains(k) && k < nodes.len() && nodes[k as int].op == Op::Prim ==> set.contains(
            nodes[k as int].a,
        ) && set.contains(nodes[k as int].b)
}

/// What holds the root, and the children of all it holds, holds all parts.
pub proof fn lemma_closed_holds_parts(nodes: Seq<Node>, root: u32, k: u32, set: Set<u32>)
    requires
        arena_ok(nodes),
        root < nodes.len(),
        closed_under_children(nodes, set),
        set.contains(root),
        reaches(nodes, root as int, k as int),
    ensures
        set.contains(k),
    decreases root,
{
    if k != root {
        let n = nodes[root as int];
        if reaches(nodes, n.a as int, k as int) {
            lemma_closed_holds_parts(nodes, n.a, k, set);
        } else {
            lemma_closed_holds_parts(nodes, n.b, k, set);
        }
    }
}

/// For each node up to `root`, whether it is a part of the expression rooted there.
pub fn parts(interner: &Interner, root: u32) -> (marks: Vec<bool>)
    requires
        interner.wf(),
        root < interner.nodes().len(),
    ensures
        marks@.len() == root + 1,
        forall|k: int|
            0 <= k <= root ==> #[trigger] marks@[k] == reaches(interner.nodes(), root as int, k),
{
    let ghost nodes = interner.nodes();
    proof {
        interner.lemma_wf();
    }
    let mut marks: Vec<bool> = Vec::new();
    let mut i: u32 = 0;
    while i < root
        invariant
            i <= root,
            marks@.len() == i,
            forall|k: int| 0 <= k < i ==> !#[trigger] marks@[k],
        decreases root - i,
    {
        marks.push(false);
        i += 1;
    }
    marks.push(true);
    let mut left: u32 = root + 1;
    while left > 0
        invariant
            interner.wf(),
            nodes == interner.nodes(),
            arena_ok(nodes),
            root < nodes.len(),
            left <= root + 1,
            marks@.len() == root + 1,
            marks@[root as int],
            forall|k: int|
                0 <= k <= root && #[trigger] marks@[k] ==> reaches(nodes, root as int, k),
            forall|k: int|
                left <= k <= root && #[trigger] marks@[k] && nodes[k].op == Op::Prim
                    ==> marks@[nodes[k].a as int] && marks@[nodes[k].b as int],
        decreases left,
    {
        left -= 1;
        let n = *interner.node(left);
        if marks[left as usize] && n.op == Op::Prim {
            proof {
                assert(node_ok(nodes, left as int));
                lemma_reaches_children(nodes, root as int, left as int);
            }
            marks.set(n.a as usize, true);
            marks.set(n.b as usize, true);
        }
        proof {
            assert forall|k: int|
                left <= k <= root && #[trigger] marks@[k] && nodes[k].op == Op::Prim implies marks@[nodes[k].a as int]
                && marks@[nodes[k].b as int] by {
                assert(node_ok(nodes, k));
            }
        }
    }
    proof {
        let set = Set::<u32>::new(|k: u32| k <= root && marks@[k as int]);
        assert forall|k: int| 0 <= k <= root implies #[trigger] marks@[k] == reaches(
            nodes,
            root as int,
            k,
        ) by {
            if reaches(nodes, root as int, k) {
                assert(closed_under_children(nodes, set)) by {
                    assert forall|j: u32|
                        #![trigger set.contains(j)]
                        set.contains(j) && j < nodes.len() && nodes[j as int].op
                            == Op::Prim implies set.contains(nodes[j as int].a) && set.contains(
                        nodes[j as int].b,
                    ) by {
                        assert(marks@[j as int]);
                        assert(node_ok(nodes, j as int));
                    }
                }
                lemma_closed_holds_parts(nodes, root, k as u32, set);
                assert(set.contains(k as u32));
            }
        }
    }
    marks
}

/// The nodes visited when, after `done`, the expression rooted at `id` is walked with the
/// children before their parent, the first child before the second, and no node twice.
pub open spec fn visit(nodes: Seq<Node>, done: Seq<u32>, id: u32) -> Seq<u32>
    decreases id,
{
    if done.contains(id) {
        done
    } else if id < nodes.len() && nodes[id as int].op == Op::Prim && nodes[id as int].a < id
        && nodes[id as int].b < id {
        visit(nodes, visit(nodes, done, nodes[id as int].a), nodes[id as int].b).push(id)
    } else {
        done.push(id)
    }
}

/// Every primitive in `order` comes after its children.
pub open spec fn children_first(nodes: Seq<Node>, order: Seq<u32>) -> bool {
    forall|k: int| 0 <= k < order.len() ==> #[trigger] after_children(nodes, order, k)
}

/// The node at place `k` of `order`, if it is a primitive, comes after its children.
pub open spec fn after_children(nodes: Seq<Node>, order: Seq<u32>, k: int) -> bool {
    nodes[order[k] as int].op == Op::Prim ==> order.take(k).contains(nodes[order[k] as int].a)
        && order.take(k).contains(nodes[order[k] as int].b)
}

/// `earlier` is the beginning of `later`.
pub open spec fn starts(earlier: Seq<u32>, later: Seq<u32>) -> bool {
    earlier.len() <= later.len() && later.take(earlier.len() as int) == earlier
}

proof fn lemma_starts_contains(earlier: Seq<u32>, later: Seq<u32>, x: u32)
    requires
        starts(earlier, later),
        earlier.contains(x),
    ensures
        later.contains(x),
{
    let i = choose|i: int| 0 <= i < earlier.len() && earlier[i] == x;
    assert(later.take(earlier.len() as int)[i] == later[i]);
}

proof fn lemma_starts_trans(a: Seq<u32>, b: Seq<u32>, c: Seq<u32>)
    requires
        starts(a, b),
        starts(b, c),
    ensures
        starts(a, c),
{
    assert(c.take(a.len() as int) =~= c.take(b.len() as int).take(a.len() as int));
}

proof fn lemma_children_first_push(nodes: Seq<Node>, order: Seq<u32>, id: u32)
    requires
        children_first(nodes, order),
        nodes[id as int].op == Op::Prim ==> order.contains(nodes[id as int].a) && order.contains(
            nodes[id as int].b,
        ),
    ensures
        children_first(nodes, order.push(id)),
        starts(order, order.push(id)),
{
    let r = order.push(id);
    assert forall|k: int| 0 <= k < r.len() implies #[trigger] after_children(nodes, r, k) by {
        if k < order.len() {
            assert(after_children(nodes, order, k));
            assert(r[k] == order[k]);
            assert(r.take(k) =~= order.take(k));
        } else {
            assert(r.take(k) =~= order);
        }
    }
    assert(r.take(order.len() as int) =~= order);
}

/// What a walk adds: the parts of the expression that were not visited before, each once, with
/// the children first and the root last.
pub proof fn lemma_visit(nodes: Seq<Node>, done: Seq<u32>, id: u32)
    requires
        arena_ok(nodes),
        id < nodes.len(),
        done.no_duplicates(),
        children_first(nodes, done),
    ensures
        starts(done, visit(nodes, done, id)),
        visit(nodes, done, id).contains(id),
        visit(nodes, done, id).no_duplicates(),
        children_first(nodes, visit(nodes, done, id)),
        forall|x: u32|
            visit(nodes, done, id).contains(x) ==> done.contains(x) || #[trigger] reaches(
                nodes,
                id as int,
                x as int,
            ),
        !done.contains(id) ==> visit(nodes, done, id).last() == id,
    decreases id,
{
    let r = visit(nodes, done, id);
    if done.contains(id) {
        assert(r.take(done.len() as int) =~= done);
    } else {
        assert(node_ok(nodes, id as int));
        let n = nodes[id as int];
        if n.op == Op::Prim {
            let r1 = visit(nodes, done, n.a);
            let r2 = visit(nodes, r1, n.b);
            lemma_visit(nodes, done, n.a);
            lemma_visit(nodes, r1, n.b);
            lemma_starts_contains(r1, r2, n.a);
            lemma_starts_trans(done, r1, r2);
            lemma_children_first_push(nodes, r2, id);
            lemma_starts_trans(done, r2, r);
            if r2.contains(id) {
                if reaches(nodes, n.b as int, id as int) {
                    lemma_reaches_below(nodes, n.b as int, id as int);
                } else {
                    assert(r1.contains(id));
                    assert(reaches(nodes, n.a as int, id as int));
                    lemma_reaches_below(nodes, n.a as int, id as int);
                }
            }
            assert(r[r2.len() as int] == id);
            assert forall|x: u32| r.contains(x) implies done.contains(x) || #[trigger] reaches(
                nodes,
                id as int,
                x as int,
            ) by {
                if x != id {
                    let i = choose|i: int| 0 <= i < r.len() && r[i] == x;
                    assert(r2[i] == x);
                    assert(r2.contains(x));
                    if !reaches(nodes, n.b as int, x as int) {
                        assert(r1.contains(x));
                        if !done.contains(x) {
                            assert(reaches(nodes, n.a as int, x as int));
                        }
                    }
                }
            }
            assert(r.no_duplicates());
        } else {
            lemma_children_first_push(nodes, done, id);
            assert(r[done.len() as int] == id);
            assert forall|x: u32| r.contains(x) implies done.contains(x) || #[trigger] reaches(
                nodes,
                id as int,
                x as int,
            ) by {
                if x != id {
                    let i = choose|i: int| 0 <= i < r.len() && r[i] == x;
                    assert(done[i] == x);
                }
            }
        }
    }
}

/// The nodes of the expression rooted at `root`, in the order of a walk.
pub open spec fn post_order(nodes: Seq<Node>, root: u32) -> Seq<u32> {
    visit(nodes, Seq::empty(), root)
}

/// The walk of an expression meets its parts and nothing else, each once, the children first
/// and the root last.
pub proof fn lemma_post_order(nodes: Seq<Node>, root: u32)
    requires
        arena_ok(nodes),
        root < nodes.len(),
    ensures
        post_order(nodes, root).len() > 0,
        post_order(nodes, root).last() == root,
        post_order(nodes, root).no_duplicates(),
        children_first(nodes, post_order(nodes, root)),
        post_order(nodes, root).len() <= root + 1,
        forall|x: u32|
            post_order(nodes, root).contains(x) <==> #[trigger] reaches(
                nodes,
                root as int,
                x as int,
            ),
{
    let none = Seq::<u32>::empty();
    lemma_visit(nodes, none, root);
    let order = post_order(nodes, root);
    let set = Set::<u32>::new(|x: u32| order.contains(x));
    assert forall|k: u32|
        #![trigger set.contains(k)]
        set.contains(k) && k < nodes.len() && nodes[k as int].op == Op::Prim implies set.contains(
        nodes[k as int].a,
    ) && set.contains(nodes[k as int].b) by {
        let i = choose|i: int| 0 <= i < order.len() && order[i] == k;
        let before = order.take(i);
        assert(after_children(nodes, order, i));
        assert(before.contains(nodes[order[i] as int].a));
        let ja = choose|j: int| 0 <= j < before.len() && before[j] == nodes[k as int].a;
        let jb = choose|j: int| 0 <= j < before.len() && before[j] == nodes[k as int].b;
        assert(order[ja] == nodes[k as int].a);
        assert(order[jb] == nodes[k as int].b);
    }
    assert forall|x: u32| order.contains(x) <==> #[trigger] reaches(
        nodes,
        root as int,
        x as int,
    ) by {
        if reaches(nodes, root as int, x as int) {
            lemma_closed_holds_parts(nodes, root, x, set);
            assert(set.contains(x));
        }
    }
    assert forall|k: int| 0 <= k < order.len() implies #[trigger] order[k] <= root by {
        assert(order.contains(order[k]));
        assert(reaches(nodes, root as int, order[k] as int));
        lemma_reaches_below(nodes, root as int, order[k] as int);
    }
    lemma_distinct_below(order, root + 1);
}

/// There are no more than `n` different indices below `n`.
proof fn lemma_distinct_below(order: Seq<u32>, n: int)
    requires
        order.no_duplicates(),
        forall|k: int| 0 <= k < order.len() ==> #[trigger] order[k] < n,
        n >= 0,
    ensures
        order.len() <= n,
{
    let wide = order.map_values(|x: u32| x as int);
    assert(wide.no_duplicates());
    wide.unique_seq_to_set();
    lemma_int_range(0, n);
    assert(wide.to_set().subset_of(set_int_range(0, n)));
    lemma_len_subset(wide.to_set(), set_int_range(0, n));
}

/// Walks do not change when nodes are added.
pub proof fn lemma_visit_extends(
    earlier: Seq<Node>,
    later: Seq<Node>,
    done: Seq<u32>,
    id: u32,
)
    requires
        arena_ok(earlier),
        extends(earlier, later),
        id < earlier.len(),
    ensures
        visit(later, done, id) == visit(earlier, done, id),
    decreases id,
{
    assert(later[id as int] == earlier[id as int]);
    assert(node_ok(earlier, id as int));
    let n = earlier[id as int];
    if !done.contains(id) && n.op == Op::Prim {
        lemma_visit_extends(earlier, later, done, n.a);
        lemma_visit_extends(earlier, later, visit(earlier, done, n.a), n.b);
    }
}

/// The nodes that a walk from `id` meets when it does not go past those in `known`.
pub open spec fn fresh(nodes: Seq<Node>, known: Set<u32>, id: u32) -> Set<u32>
    decreases id,
{
    if known.contains(id) {
        Set::empty()
    } else if id < nodes.len() && nodes[id as int].op == Op::Prim && nodes[id as int].a < id
        && nodes[id as int].b < id {
        fresh(nodes, known, nodes[id as int].a).union(
            fresh(nodes, known, nodes[id as int].b),
        ).insert(id)
    } else {
        Set::empty().insert(id)
    }
}

/// A walk from a node meets no later one.
pub proof fn lemma_fresh_below(nodes: Seq<Node>, known: Set<u32>, id: u32)
    ensures
        forall|k: u32| #[trigger] fresh(nodes, known, id).contains(k) ==> k <= id,
    decreases id,
{
    if !known.contains(id) && id < nodes.len() && nodes[id as int].op == Op::Prim
        && nodes[id as int].a < id && nodes[id as int].b < id {
        let (a, b) = (nodes[id as int].a, nodes[id as int].b);
        lemma_fresh_below(nodes, known, a);
        lemma_fresh_below(nodes, known, b);
        assert forall|k: u32| #[trigger] fresh(nodes, known, id).contains(k) implies k <= id by {
            assert(k == id || fresh(nodes, known, a).contains(k) || fresh(
                nodes,
                known,
                b,
            ).contains(k));
        }
    }
}

/// The more is known, the less is met.
proof fn lemma_fresh_shrinks(nodes: Seq<Node>, known: Set<u32>, more: Set<u32>, id: u32)
    requires
        known.subset_of(more),
    ensures
        fresh(nodes, more, id).subset_of(fresh(nodes, known, id)),
    decreases id,
{
    if !more.contains(id) && id < nodes.len() && nodes[id as int].op == Op::Prim
        && nodes[id as int].a < id && nodes[id as int].b < id {
        lemma_fresh_shrinks(nodes, known, more, nodes[id as int].a);
        lemma_fresh_shrinks(nodes, known, more, nodes[id as int].b);
    }
}

/// What is met from a node that is met is met.
proof fn lemma_fresh_within(nodes: Seq<Node>, known: Set<u32>, id: u32, k: u32)
    requires
        fresh(nodes, known, id).contains(k),
    ensures
        fresh(nodes, known, k).subset_of(fresh(nodes, known, id)),
    decreases id,
{
    if k != id {
        if fresh(nodes, known, nodes[id as int].a).contains(k) {
            lemma_fresh_within(nodes, known, nodes[id as int].a, k);
        } else {
            lemma_fresh_within(nodes, known, nodes[id as int].b, k);
        }
    }
}

/// After a walk from `a`, a walk from `b` meets all that it would have met without it, but for
/// what the first one met.
proof fn lemma_fresh_split(nodes: Seq<Node>, known: Set<u32>, a: u32, b: u32)
    ensures
        fresh(nodes, known, b).subset_of(
            known.union(fresh(nodes, known, a)).union(
                fresh(nodes, known.union(fresh(nodes, known, a)), b),
            ),
        ),
    decreases b,
{
    let more = known.union(fresh(nodes, known, a));
    if more.contains(b) {
        if !known.contains(b) {
            lemma_fresh_within(nodes, known, a, b);
        }
    } else if b < nodes.len() && nodes[b as int].op == Op::Prim && nodes[b as int].a < b
        && nodes[b as int].b < b {
        lemma_fresh_split(nodes, known, a, nodes[b as int].a);
        lemma_fresh_split(nodes, known, a, nodes[b as int].b);
    }
}

/// A walk from a primitive meets what walks from its children meet one after the other, and
/// the primitive itself.
pub proof fn lemma_fresh_prim(nodes: Seq<Node>, known: Set<u32>, id: u32)
    requires
        arena_ok(nodes),
        id < nodes.len(),
        nodes[id as int].op == Op::Prim,
        !known.contains(id),
    ensures
        ({
            let one = known.union(fresh(nodes, known, nodes[id as int].a));
            let two = one.union(fresh(nodes, one, nodes[id as int].b));
            two.insert(id) == known.union(fresh(nodes, known, id))
        }),
{
    assert(node_ok(nodes, id as int));
    let (a, b) = (nodes[id as int].a, nodes[id as int].b);
    let one = known.union(fresh(nodes, known, a));
    let two = one.union(fresh(nodes, one, b));
    lemma_fresh_shrinks(nodes, known, one, b);
    lemma_fresh_split(nodes, known, a, b);
    assert(two.insert(id) =~= known.union(fresh(nodes, known, id)));
}

/// `places` says where each node stands in `order`.
pub open spec fn places_ok(order: Seq<u32>, places: Map<u32, usize>) -> bool {
    &&& forall|x: u32|
        #![trigger places.contains_key(x)]
        places.contains_key(x) ==> places[x] < order.len() && order[places[x] as int] == x
    &&& forall|x: u32|
        #![trigger order.contains(x)]
        order.contains(x) ==> places.contains_key(x)
}

/// Walks the expression rooted at `id`, after what `order` already holds.
fn visit_node(
    interner: &Interner,
    id: u32,
    order: &mut Vec<u32>,
    places: &mut FxHashMap<u32, usize>,
)
    requires
        interner.wf(),
        id < interner.nodes().len(),
        places_ok(old(order)@, old(places)@),
    ensures
        final(order)@ == visit(interner.nodes(), old(order)@, id),
        places_ok(final(order)@, final(places)@),
    decreases id,
{
    proof {
        interner.lemma_wf();
        assert(node_ok(interner.nodes(), id as int));
    }
    if let Some(_) = fx_get(places, &id) {
        proof {
            assert(order@[places@[id] as int] == id);
        }
        return ;
    }
    let n = *interner.node(id);
    if n.op == Op::Prim {
        visit_node(interner, n.a, order, places);
        visit_node(interner, n.b, order, places);
    }
    let ghost before = order@;
    let at = order.len();
    order.push(id);
    fx_insert(places, id, at);
    proof {
        assert forall|x: u32|
            #![trigger places@.contains_key(x)]
            places@.contains_key(x) implies places@[x] < order@.len() && order@[places@[x] as int]
            == x by {}
        assert forall|x: u32|
            #![trigger order@.contains(x)]
            order@.contains(x) implies places@.contains_key(x) by {
            if x != id {
                let i = choose|i: int| 0 <= i < order@.len() && order@[i] == x;
                assert(before[i] == x);
                assert(before.contains(x));
            }
        }
    }
}

/// The nodes of the expression rooted at `root` in the order of a walk, and where each stands.
pub fn walk(interner: &Interner, root: u32) -> (r: (Vec<u32>, FxHashMap<u32, usize>))
    requires
        interner.wf(),
        root < interner.nodes().len(),
    ensures
        r.0@ == post_order(interner.nodes(), root),
        places_ok(r.0@, r.1@),
{
    let mut order: Vec<u32> = Vec::new();
    let mut places: FxHashMap<u32, usize> = fx_new();
    visit_node(interner, root, &mut order, &mut places);
    (order, places)
}

/// The nodes that are met when those on `stack` are taken from its end, each followed by its
/// children, the second child first; `out` were met before, and no node is met twice.
pub open spec fn met(nodes: Seq<Node>, stack: Seq<u32>, out: Seq<u32>) -> Seq<u32>
    decreases nodes.len() - out.len(), stack.len(),
{
    if stack.len() == 0 || out.len() >= nodes.len() {
        out
    } else {
        let id = stack.last();
        let rest = stack.drop_last();
        if out.contains(id) {
            met(nodes, rest, out)
        } else if nodes[id as int].op == Op::Prim {
            met(nodes, rest.push(nodes[id as int].a).push(nodes[id as int].b), out.push(id))
        } else {
            met(nodes, rest, out.push(id))
        }
    }
}

/// What holds of the nodes that were met, and those on the stack.
spec fn meeting(nodes: Seq<Node>, root: u32, stack: Seq<u32>, out: Seq<u32>) -> bool {
    &&& out.no_duplicates()
    &&& out.contains(root) || stack.contains(root)
    &&& forall|x: u32| #[trigger]
        out.contains(x) ==> x < nodes.len() && reaches(nodes, root as int, x as int)
    &&& forall|x: u32| #[trigger]
        stack.contains(x) ==> x < nodes.len() && reaches(nodes, root as int, x as int)
    &&& forall|x: u32| #[trigger]
        out.contains(x) && nodes[x as int].op == Op::Prim ==> (out.contains(nodes[x as int].a)
            || stack.contains(nodes[x as int].a)) && (out.contains(nodes[x as int].b)
            || stack.contains(nodes[x as int].b))
}

/// A node that was met before is dropped.
proof fn lemma_meeting_drop(nodes: Seq<Node>, root: u32, stack: Seq<u32>, out: Seq<u32>)
    requires
        meeting(nodes, root, stack, out),
        stack.len() > 0,
        out.contains(stack.last()),
    ensures
        meeting(nodes, root, stack.drop_last(), out),
{
    let rest = stack.drop_last();
    assert forall|x: u32| #[trigger] stack.contains(x) implies rest.contains(x) || out.contains(
        x,
    ) by {
        let i = choose|i: int| 0 <= i < stack.len() && stack[i] == x;
        if i < rest.len() {
            assert(rest[i] == x);
        }
    }
    assert forall|x: u32| #[trigger] rest.contains(x) implies stack.contains(x) by {
        let i = choose|i: int| 0 <= i < rest.len() && rest[i] == x;
        assert(stack[i] == x);
    }
}

/// A node that is met is followed by its children.
proof fn lemma_meeting_take(
    nodes: Seq<Node>,
    root: u32,
    stack: Seq<u32>,
    out: Seq<u32>,
    more: Seq<u32>,
)
    requires
        arena_ok(nodes),
        root < nodes.len(),
        meeting(nodes, root, stack, out),
        stack.len() > 0,
        !out.contains(stack.last()),
        ({
            let n = nodes[stack.last() as int];
            more == if n.op == Op::Prim {
                stack.drop_last().push(n.a).push(n.b)
            } else {
                stack.drop_last()
            }
        }),
    ensures
        meeting(nodes, root, more, out.push(stack.last())),
{
    let id = stack.last();
    let rest = stack.drop_last();
    let longer = out.push(id);
    let n = nodes[id as int];
    assert(stack[stack.len() - 1] == id && stack.contains(id));
    assert(node_ok(nodes, id as int));
    if n.op == Op::Prim {
        lemma_reaches_children(nodes, root as int, id as int);
        assert(more[rest.len() as int] == n.a);
        assert(more.contains(n.a));
        assert(more[rest.len() as int + 1] == n.b);
        assert(more.contains(n.b));
    }
    assert forall|x: u32| #[trigger] out.contains(x) implies longer.contains(x) by {
        let i = choose|i: int| 0 <= i < out.len() && out[i] == x;
        assert(longer[i] == x);
    }
    assert(longer[out.len() as int] == id);
    assert(longer.contains(id));
    assert forall|x: u32| #[trigger] longer.contains(x) implies out.contains(x) || x == id by {
        let i = choose|i: int| 0 <= i < longer.len() && longer[i] == x;
        if i < out.len() {
            assert(out[i] == x);
        }
    }
    assert forall|x: u32| #[trigger] stack.contains(x) implies more.contains(x) || x == id by {
        let i = choose|i: int| 0 <= i < stack.len() && stack[i] == x;
        if i < rest.len() {
            assert(more[i] == x);
        }
    }
    assert forall|x: u32| #[trigger] more.contains(x) implies stack.contains(x) || (n.op == Op::Prim
        && (x == n.a || x == n.b)) by {
        let i = choose|i: int| 0 <= i < more.len() && more[i] == x;
        if i < rest.len() {
            assert(stack[i] == x);
        }
    }
}

/// At the end all parts have been met.
proof fn lemma_met_all(nodes: Seq<Node>, root: u32, stack: Seq<u32>, out: Seq<u32>)
    requires
        arena_ok(nodes),
        root < nodes.len(),
        meeting(nodes, root, stack, out),
        stack.len() == 0 || out.len() >= nodes.len(),
    ensures
        forall|x: u32| out.contains(x) <==> #[trigger] reaches(nodes, root as int, x as int),
{
    let set = Set::<u32>::new(|x: u32| out.contains(x));
    assert forall|x: u32| out.contains(x) <==> #[trigger] reaches(nodes, root as int, x as int) by {
        if reaches(nodes, root as int, x as int) {
            lemma_reaches_below(nodes, root as int, x as int);
            if stack.len() == 0 {
                assert(closed_under_children(nodes, set));
                lemma_closed_holds_parts(nodes, root, x, set);
            } else if !out.contains(x) {
                let longer = out.push(x);
                assert forall|k: int| 0 <= k < longer.len() implies #[trigger] longer[k]
                    < nodes.len() by {
                    if k < out.len() {
                        assert(out.contains(out[k]));
                    }
                }
                lemma_distinct_below(longer, nodes.len() as int);
            }
        }
    }
}

/// The nodes of the expression rooted at `root`, each once, in the order in which a search with a
/// stack meets them.
pub fn search_order(interner: &Interner, root: u32) -> (out: Vec<u32>)
    requires
        interner.wf(),
        root < interner.nodes().len(),
    ensures
        out@ == met(interner.nodes(), seq![root], Seq::empty()),
        out@.no_duplicates(),
        forall|x: u32|
            out@.contains(x) <==> #[trigger] reaches(interner.nodes(), root as int, x as int),
{
    let ghost nodes = interner.nodes();
    proof {
        interner.lemma_wf();
    }
    let mut seen: Vec<bool> = Vec::new();
    while seen.len() < interner.len()
        invariant
            interner.wf(),
            nodes == interner.nodes(),
            seen@.len() <= nodes.len(),
            forall|k: int| 0 <= k < seen@.len() ==> !#[trigger] seen@[k],
        decreases nodes.len() - seen@.len(),
    {
        seen.push(false);
    }
    let mut out: Vec<u32> = Vec::new();
    let mut stack: Vec<u32> = vec![root];
    proof {
        assert(stack@ =~= seq![root]);
        assert(out@ =~= Seq::<u32>::empty());
        assert(stack@[0] == root && stack@.contains(root));
        assert(reaches(nodes, root as int, root as int));
    }
    while stack.len() > 0 && out.len() < interner.len()
        invariant
            interner.wf(),
            nodes == interner.nodes(),
            arena_ok(nodes),
            root < nodes.len(),
            seen@.len() == nodes.len(),
            forall|k: u32| k < nodes.len() ==> #[trigger] seen@[k as int] == out@.contains(k),
            out@.len() <= nodes.len(),
            meeting(nodes, root, stack@, out@),
            met(nodes, stack@, out@) == met(nodes, seq![root], Seq::empty()),
        decreases nodes.len() - out@.len(), stack@.len(),
    {
        let ghost (held, before) = (stack@, out@);
        let top = stack.len() - 1;
        let id = stack[top];
        assert(held.contains(id));
        stack.pop();
        assert(stack@ =~= held.drop_last());
        if seen[id as usize] {
            proof {
                lemma_meeting_drop(nodes, root, held, before);
            }
        } else {
            let n = *interner.node(id);
            out.push(id);
            seen.set(id as usize, true);
            if n.op == Op::Prim {
                stack.push(n.a);
                stack.push(n.b);
            }
            proof {
                lemma_meeting_take(nodes, root, held, before, stack@);
                assert forall|k: u32| k < nodes.len() implies #[trigger] seen@[k as int]
                    == out@.contains(k) by {
                    if k == id {
                        assert(out@[before.len() as int] == id);
                    } else if before.contains(k) {
                        let i = choose|i: int| 0 <= i < before.len() && before[i] == k;
                        assert(out@[i] == k);
                    } else if out@.contains(k) {
                        let i = choose|i: int| 0 <= i < out@.len() && out@[i] == k;
                        assert(i == before.len() || before[i] == k);
                    }
                }
            }
        }
    }
    proof {
        lemma_met_all(nodes, root, stack@, out@);
    }
    out
}

} // verus!
