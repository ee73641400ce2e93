//! The language in which expressions are handed to equality saturation, the constants it refers
//! to, and the decisions that saturation asks for.

use vstd::prelude::*;

use crate::arena::{
    arena_ok, consts_apart, distances_agree, extends, first_hit, lemma_first_hit, no_duplicates,
    tree, Interner, Node, NIL,
};
use crate::complex::{eml, may_be_within, may_exceed, prim_outcome, within, Complex64};
use crate::expr::{constants, ops, stands_for, well_separated, Expr};
use crate::float::{check_finite, is_nan, SIGN_BIT};
use crate::graph::{lemma_post_order, post_order};
use crate::plan::{
    intern_steps, law_apart_is_well_separated, law_plan_denotes, law_separated_plan_is_kept,
    make_plan, plan_at, plan_ok, step_ok, step_tree, steps_interned, steps_ok, Step,
};
use crate::text::{
    all_digits, decimal, digits_value, lemma_decimal_value, parse_digits, push_u64, to_chars,
};

verus! {

/// The index of a constant in a `ConstTable`.
#[derive(Clone, Copy, PartialEq, Eq, PartialOrd, Ord, Hash, Debug, Structural)]
pub struct ConstId(pub u32);

/// The text of a constant's index.
pub open spec fn const_id_text(n: u32) -> Seq<char> {
    seq!['c'] + decimal(n as nat)
}

/// The index that a text stands for: the letter `c`, perhaps a plus sign, and decimal digits.
pub open spec fn const_id_value(s: Seq<char>) -> Option<u32> {
    if s.len() == 0 || s[0] != 'c' {
        None
    } else {
        let digits = if s.len() > 1 && s[1] == '+' {
            s.skip(2)
        } else {
            s.skip(1)
        };
        if digits.len() > 0 && all_digits(digits) && digits_value(digits) <= u32::MAX {
            Some(digits_value(digits) as u32)
        } else {
            None
        }
    }
}

impl ConstId {
    /// The index as text, such as `c7`.
    pub fn to_text(&self) -> (r: String)
        ensures
            r@ == const_id_text(self.0),
    {
        let mut out = String::new();
        out.push('c');
        push_u64(&mut out, self.0 as u64);
        assert(out@ =~= const_id_text(self.0));
        out
    }

    /// Reads an index from text.
    pub fn from_str(s: &str) -> (r: Result<ConstId, String>)
        ensures
            match const_id_value(s@) {
                Some(n) => r == Ok::<ConstId, String>(ConstId(n)),
                None => r matches Err(e) && e@ == "invalid ConstId literal: "@ + s@,
            },
    {
        let chars = to_chars(s);
        if chars.len() > 0 && chars[0] == 'c' {
            let from: usize = if chars.len() > 1 && chars[1] == '+' {
                2
            } else {
                1
            };
            if let Some(n) = parse_digits(&chars, from, 0xffff_ffff) {
                return Ok(ConstId(n as u32));
            }
        }
        let mut message = String::new();
        message.push_str("invalid ConstId literal: ");
        message.push_str(s);
        assert(message@ =~= "invalid ConstId literal: "@ + s@);
        Err(message)
    }
}

/// Reading the text of an index gives the index back.
pub proof fn law_const_id_round_trip(n: u32)
    ensures
        const_id_value(const_id_text(n)) == Some(n),
{
    let s = const_id_text(n);
    lemma_decimal_value(n as nat);
    assert(s.skip(1) =~= decimal(n as nat));
    assert(s[1] == decimal(n as nat)[0]);
}

/// The table and the index after looking `v` up in `values`, and adding it if it is not there.
/// `verdicts` says of each value whether it is the same as `v`.
pub open spec fn table_step(values: Seq<Complex64>, v: Complex64, verdicts: Seq<bool>) -> (
    Seq<Complex64>,
    int,
) {
    let k = first_hit(verdicts);
    if k < values.len() {
        (values, k)
    } else {
        (values.push(v), values.len() as int)
    }
}

/// Which of the values are `v`, bit for bit.
pub open spec fn same_bits(values: Seq<Complex64>, v: Complex64) -> Seq<bool> {
    Seq::new(values.len(), |k: int| values[k] == v)
}

/// `verdicts` is what the distance test may say of the values.
pub open spec fn near_possible(
    values: Seq<Complex64>,
    v: Complex64,
    tolerance: u64,
    verdicts: Seq<bool>,
) -> bool {
    verdicts.len() == values.len() && forall|k: int|
        0 <= k < verdicts.len() ==> {
            &&& #[trigger] verdicts[k] ==> may_be_within(values[k], v, tolerance)
            &&& !verdicts[k] ==> may_exceed(values[k], v, tolerance)
            &&& values[k] == v && v.finite() && !is_nan(tolerance) && tolerance < SIGN_BIT
                ==> verdicts[k]
        }
}

/// The constants of expressions in the language `L`, which refers to them by index.
#[derive(Debug)]
pub struct ConstTable {
    values: Vec<Complex64>,
}

impl ConstTable {
    pub closed spec fn values(self) -> Seq<Complex64> {
        self.values@
    }

    pub fn new() -> (r: Self)
        ensures
            r.values() == Seq::<Complex64>::empty(),
    {
        ConstTable { values: Vec::new() }
    }

    pub fn len(&self) -> (r: usize)
        ensures
            r == self.values().len(),
    {
        self.values.len()
    }

    /// Looks `v` up and adds it if it is not there, given for each constant whether it is the
    /// same as `v`.
    fn intern_with(&mut self, v: Complex64, verdicts: &Vec<bool>) -> (id: ConstId)
        requires
            verdicts@.len() == old(self).values().len(),
            old(self).values().len() <= u32::MAX,
        ensures
            (final(self).values(), id.0 as int) == table_step(old(self).values(), v, verdicts@),
    {
        proof {
            lemma_first_hit(verdicts@);
        }
        let mut k: usize = 0;
        while k < verdicts.len()
            invariant
                self == old(self),
                verdicts@.len() == self.values().len(),
                self.values().len() <= u32::MAX,
                k <= first_hit(verdicts@) <= verdicts@.len(),
                first_hit(verdicts@) < verdicts@.len() ==> verdicts@[first_hit(verdicts@)],
                forall|j: int| 0 <= j < first_hit(verdicts@) ==> !#[trigger] verdicts@[j],
            decreases verdicts@.len() - k,
        {
            if verdicts[k] {
                assert(k == first_hit(verdicts@)) by {
                    if k < first_hit(verdicts@) {
                        assert(!verdicts@[k as int]);
                    }
                }
                return ConstId(k as u32);
            }
            k += 1;
        }
        let id = ConstId(self.values.len() as u32);
        self.values.push(v);
        id
    }

    /// The index of the first constant with the bits of `v`, or else of a new one.
    pub fn intern(&mut self, v: Complex64) -> (id: ConstId)
        requires
            old(self).values().len() <= u32::MAX,
        ensures
            (final(self).values(), id.0 as int) == table_step(
                old(self).values(),
                v,
                same_bits(old(self).values(), v),
            ),
            id.0 < final(self).values().len(),
            final(self).values()[id.0 as int] == v,
    {
        let mut verdicts: Vec<bool> = Vec::new();
        let mut k: usize = 0;
        while k < self.values.len()
            invariant
                k <= self.values@.len(),
                verdicts@.len() == k,
                forall|j: int|
                    0 <= j < k ==> #[trigger] verdicts@[j] == (self.values@[j] == v),
            decreases self.values@.len() - k,
        {
            verdicts.push(self.values[k] == v);
            k += 1;
        }
        assert(verdicts@ =~= same_bits(self.values(), v));
        proof {
            lemma_first_hit(verdicts@);
        }
        self.intern_with(v, &verdicts)
    }

    /// Whether each constant is within `tolerance` of `v`.
    pub fn near_verdicts(&self, v: Complex64, tolerance: u64) -> (verdicts: Vec<bool>)
        ensures
            near_possible(self.values(), v, tolerance, verdicts@),
    {
        let mut verdicts: Vec<bool> = Vec::new();
        let mut k: usize = 0;
        while k < self.values.len()
            invariant
                k <= self.values@.len(),
                near_possible(self.values@.take(k as int), v, tolerance, verdicts@),
            decreases self.values@.len() - k,
        {
            let near = within(self.values[k], v, tolerance);
            let ghost earlier = verdicts@;
            verdicts.push(near);
            proof {
                let some = self.values@.take(k + 1);
                assert forall|j: int| 0 <= j < verdicts@.len() implies {
                    &&& #[trigger] verdicts@[j] ==> may_be_within(some[j], v, tolerance)
                    &&& !verdicts@[j] ==> may_exceed(some[j], v, tolerance)
                    &&& some[j] == v && v.finite() && !is_nan(tolerance) && tolerance < SIGN_BIT
                        ==> verdicts@[j]
                } by {
                    if j < k {
                        assert(verdicts@[j] == earlier[j]);
                        assert(some[j] == self.values@.take(k as int)[j]);
                    }
                }
            }
            k += 1;
        }
        assert(self.values@.take(self.values@.len() as int) =~= self.values@);
        verdicts
    }

    /// The index of the first constant whose distance from `v` comes out within `tolerance`, or
    /// else of a new one, so that one value reached in several ways has one index.
    pub fn intern_approx(&mut self, v: Complex64, tolerance: u64) -> (id: ConstId)
        requires
            old(self).values().len() <= u32::MAX,
        ensures
            exists|verdicts: Seq<bool>| #[trigger]
                near_possible(old(self).values(), v, tolerance, verdicts) && (
                final(self).values(),
                id.0 as int,
                ) == table_step(old(self).values(), v, verdicts),
            id.0 < final(self).values().len(),
            final(self).values()[id.0 as int] == v || may_be_within(
                final(self).values()[id.0 as int],
                v,
                tolerance,
            ),
    {
        let verdicts = self.near_verdicts(v, tolerance);
        proof {
            lemma_first_hit(verdicts@);
        }
        self.intern_with(v, &verdicts)
    }

    pub fn get(&self, id: ConstId) -> (r: Complex64)
        requires
            id.0 < self.values().len(),
        ensures
            r == self.values()[id.0 as int],
    {
        self.values[id.0 as usize]
    }
}

impl Clone for ConstTable {
    fn clone(&self) -> (r: Self)
        ensures
            r.values() == self.values(),
    {
        ConstTable { values: self.values.clone() }
    }
}

impl Default for ConstTable {
    fn default() -> (r: Self)
        ensures
            r.values() == Seq::<Complex64>::empty(),
    {
        Self::new()
    }
}

/// A term of the language: the primitive over two earlier terms, a constant, or the variable.
#[derive(Clone, Copy, PartialEq, Eq, Debug, Structural)]
pub enum L {
    Prim(usize, usize),
    Const(ConstId),
    Var,
}

/// The step that a term is, with its constant looked up.
pub open spec fn term_step(term: L, values: Seq<Complex64>) -> Step {
    match term {
        L::Prim(i, j) => Step::Prim(i, j),
        L::Const(id) => Step::Const(values[id.0 as int]),
        L::Var => Step::Var,
    }
}

/// The steps that a list of terms is.
pub open spec fn term_steps(terms: Seq<L>, values: Seq<Complex64>) -> Seq<Step> {
    Seq::new(terms.len(), |k: int| term_step(terms[k], values))
}

/// The constant of the term is in the table.
pub open spec fn term_known(term: L, values: Seq<Complex64>) -> bool {
    term matches L::Const(id) ==> id.0 < values.len()
}

/// There is a term, every term only uses earlier ones, and their constants are in the table.
pub open spec fn terms_ok(terms: Seq<L>, values: Seq<Complex64>) -> bool {
    &&& plan_ok(term_steps(terms, values))
    &&& forall|k: int| 0 <= k < terms.len() ==> term_known(#[trigger] terms[k], values)
}

/// The expression that a list of terms is: that of its last term.
pub open spec fn terms_tree(terms: Seq<L>, values: Seq<Complex64>) -> Expr {
    step_tree(term_steps(terms, values), terms.len() - 1)
}

/// The terms of the first `k` steps, and the table after their constants were looked up in
/// `values` in turn.
pub open spec fn terms_run(plan: Seq<Step>, values: Seq<Complex64>, k: int) -> (
    Seq<L>,
    Seq<Complex64>,
)
    decreases k,
{
    if k <= 0 {
        (Seq::empty(), values)
    } else {
        let (terms, table) = terms_run(plan, values, k - 1);
        match plan[k - 1] {
            Step::Var => (terms.push(L::Var), table),
            Step::Prim(i, j) => (terms.push(L::Prim(i, j)), table),
            Step::Const(v) => {
                let (after, id) = table_step(table, v, same_bits(table, v));
                (terms.push(L::Const(ConstId(id as u32))), after)
            },
        }
    }
}

/// The terms of a plan are the steps of the plan.
proof fn lemma_terms_run(plan: Seq<Step>, values: Seq<Complex64>, k: int)
    requires
        0 <= k <= plan.len(),
        values.len() + k <= u32::MAX,
    ensures
        ({
            let (terms, table) = terms_run(plan, values, k);
            &&& terms.len() == k
            &&& values.len() <= table.len() <= values.len() + k
            &&& forall|j: int|
                0 <= j < k ==> term_known(#[trigger] terms[j], table) && term_step(terms[j], table)
                    == plan[j]
        }),
    decreases k,
{
    if k > 0 {
        lemma_terms_run(plan, values, k - 1);
        let (earlier, before) = terms_run(plan, values, k - 1);
        let (terms, table) = terms_run(plan, values, k);
        if let Step::Const(v) = plan[k - 1] {
            lemma_first_hit(same_bits(before, v));
        }
        assert forall|j: int| 0 <= j < k implies term_known(#[trigger] terms[j], table) && term_step(
            terms[j],
            table,
        ) == plan[j] by {
            if j < k - 1 {
                assert(terms[j] == earlier[j]);
                assert(term_known(earlier[j], before));
            }
        }
    }
}

/// Turning an expression into terms and back keeps the expression: the terms are well formed
/// and stand for it.
pub proof fn law_terms_keep_expression(nodes: Seq<Node>, root: u32, values: Seq<Complex64>)
    requires
        arena_ok(nodes),
        root < nodes.len(),
        values.len() + plan_at(nodes, root).len() <= u32::MAX,
    ensures
        ({
            let plan = plan_at(nodes, root);
            let (terms, table) = terms_run(plan, values, plan.len() as int);
            terms_ok(terms, table) && terms_tree(terms, table) == tree(nodes, root as int)
        }),
{
    let plan = plan_at(nodes, root);
    let (terms, table) = terms_run(plan, values, plan.len() as int);
    law_plan_denotes(nodes, root);
    lemma_terms_run(plan, values, plan.len() as int);
    assert(term_steps(terms, table) =~= plan);
}

/// Turns the expression rooted at `root` into terms, one for each of its nodes, the children
/// first. The constants are looked up in `consts`, and added where they are not there.
pub fn arena_to_recexpr(interner: &Interner, root: u32, consts: &mut ConstTable) -> (terms: Vec<L>)
    requires
        interner.wf(),
        root < interner.nodes().len(),
        old(consts).values().len() + plan_at(interner.nodes(), root).len() <= u32::MAX,
    ensures
        ({
            let plan = plan_at(interner.nodes(), root);
            (terms@, final(consts).values()) == terms_run(
                plan,
                old(consts).values(),
                plan.len() as int,
            )
        }),
        terms_ok(terms@, final(consts).values()),
        terms_tree(terms@, final(consts).values()) == interner.expr(root),
{
    let plan = make_plan(interner, root);
    let mut terms: Vec<L> = Vec::new();
    let mut k: usize = 0;
    while k < plan.len()
        invariant
            k <= plan@.len(),
            old(consts).values().len() + plan@.len() <= u32::MAX,
            (terms@, consts.values()) == terms_run(plan@, old(consts).values(), k as int),
        decreases plan@.len() - k,
    {
        proof {
            lemma_terms_run(plan@, old(consts).values(), k as int);
        }
        let term = match plan[k] {
            Step::Var => L::Var,
            Step::Prim(i, j) => L::Prim(i, j),
            Step::Const(v) => L::Const(consts.intern(v)),
        };
        terms.push(term);
        k += 1;
    }
    proof {
        interner.lemma_wf();
        law_terms_keep_expression(interner.nodes(), root, old(consts).values());
    }
    terms
}

/// Whether there is a term, every term only uses earlier ones, and their constants are in the
/// table.
pub fn check_terms(terms: &Vec<L>, consts: &ConstTable) -> (r: bool)
    ensures
        r == terms_ok(terms@, consts.values()),
{
    let ghost values = consts.values();
    let ghost steps = term_steps(terms@, values);
    if terms.len() == 0 {
        return false;
    }
    let mut k: usize = 0;
    while k < terms.len()
        invariant
            k <= terms@.len(),
            values == consts.values(),
            steps == term_steps(terms@, values),
            forall|j: int| 0 <= j < k ==> term_known(#[trigger] terms@[j], values),
            forall|j: int| 0 <= j < k ==> #[trigger] step_ok(steps, j),
        decreases terms@.len() - k,
    {
        let ok = match terms[k] {
            L::Prim(i, j) => i < k && j < k,
            L::Const(id) => (id.0 as usize) < consts.len(),
            L::Var => true,
        };
        assert(ok == (step_ok(steps, k as int) && term_known(terms@[k as int], values)));
        if !ok {
            return false;
        }
        k += 1;
    }
    true
}

/// Interns the expression that a list of terms is, term by term, and returns the index of its
/// root.
pub fn recexpr_to_arena(expr: &Vec<L>, consts: &ConstTable, interner: &mut Interner) -> (id: u32)
    requires
        terms_ok(expr@, consts.values()),
        old(interner).wf(),
        old(interner).nodes().len() + expr@.len() <= NIL,
    ensures
        final(interner).wf(),
        extends(old(interner).nodes(), final(interner).nodes()),
        final(interner).nodes().len() <= old(interner).nodes().len() + expr@.len(),
        id < final(interner).nodes().len(),
        exists|ids: Seq<u32>|
            ids.len() == expr@.len() && id == ids.last() && #[trigger] steps_interned(
                old(interner).nodes(),
                term_steps(expr@, consts.values()),
                final(interner).nodes(),
                ids,
            ),
        stands_for(final(interner).expr(id), terms_tree(expr@, consts.values())),
        consts_apart(old(interner).nodes()) ==> consts_apart(final(interner).nodes()),
{
    let mut steps: Vec<Step> = Vec::new();
    let mut k: usize = 0;
    while k < expr.len()
        invariant
            k <= expr@.len(),
            terms_ok(expr@, consts.values()),
            steps@.len() == k,
            forall|j: int|
                0 <= j < k ==> #[trigger] steps@[j] == term_step(expr@[j], consts.values()),
        decreases expr@.len() - k,
    {
        assert(term_known(expr@[k as int], consts.values()));
        let step = match expr[k] {
            L::Prim(i, j) => Step::Prim(i, j),
            L::Const(id) => Step::Const(consts.get(id)),
            L::Var => Step::Var,
        };
        steps.push(step);
        k += 1;
    }
    assert(steps@ =~= term_steps(expr@, consts.values()));
    let ids = intern_steps(interner, &steps);
    assert(ids@.last() == ids@[ids@.len() - 1]);
    ids[ids.len() - 1]
}

/// Turning an expression into terms and interning those in an interner that held nothing before
/// gives the expression back, its constants bit for bit, when they are well separated. There is a
/// term for each node of the expression, and a node for each term, the root at the end.
pub proof fn law_terms_round_trip(nodes: Seq<Node>, root: u32, after: Seq<Node>, ids: Seq<u32>)
    requires
        arena_ok(nodes),
        no_duplicates(nodes),
        root < nodes.len(),
        well_separated(tree(nodes, root as int), tree(nodes, root as int)),
        ({
            let plan = plan_at(nodes, root);
            let (terms, table) = terms_run(plan, Seq::empty(), plan.len() as int);
            steps_interned(Seq::empty(), term_steps(terms, table), after, ids)
        }),
    ensures
        ({
            let plan = plan_at(nodes, root);
            let (terms, table) = terms_run(plan, Seq::empty(), plan.len() as int);
            &&& terms.len() == post_order(nodes, root).len()
            &&& after.len() == terms.len()
            &&& ids.len() == terms.len()
            &&& ids.last() == after.len() - 1
            &&& tree(after, ids.last() as int) == tree(nodes, root as int)
        }),
{
    let plan = plan_at(nodes, root);
    let (terms, table) = terms_run(plan, Seq::empty(), plan.len() as int);
    lemma_post_order(nodes, root);
    lemma_terms_run(plan, Seq::empty(), plan.len() as int);
    assert(term_steps(terms, table) =~= plan);
    law_separated_plan_is_kept(nodes, root, after, ids);
}

/// The same holds of the expressions of an interner, where the distance test says the same each time.
pub proof fn law_interner_terms_round_trip(
    nodes: Seq<Node>,
    root: u32,
    after: Seq<Node>,
    ids: Seq<u32>,
)
    requires
        arena_ok(nodes),
        no_duplicates(nodes),
        consts_apart(nodes),
        distances_agree(),
        root < nodes.len(),
        ({
            let plan = plan_at(nodes, root);
            let (terms, table) = terms_run(plan, Seq::empty(), plan.len() as int);
            steps_interned(Seq::empty(), term_steps(terms, table), after, ids)
        }),
    ensures
        after.len() == post_order(nodes, root).len(),
        ids.last() == after.len() - 1,
        tree(after, ids.last() as int) == tree(nodes, root as int),
{
    law_apart_is_well_separated(nodes, root);
    law_terms_round_trip(nodes, root, after, ids);
}

/// Looking a finite value up twice gives the same index, and the second time nothing is added, when
/// the distance test can only go one way between the value and those already there.
pub proof fn law_approx_interned_twice(
    values: Seq<Complex64>,
    v: Complex64,
    tolerance: u64,
    first: Seq<bool>,
    second: Seq<bool>,
)
    requires
        v.finite(),
        !is_nan(tolerance),
        tolerance < SIGN_BIT,
        forall|k: int|
            0 <= k < values.len() ==> !(may_be_within(#[trigger] values[k], v, tolerance)
                && may_exceed(values[k], v, tolerance)),
        near_possible(values, v, tolerance, first),
        near_possible(table_step(values, v, first).0, v, tolerance, second),
    ensures
        table_step(table_step(values, v, first).0, v, second) == table_step(values, v, first),
{
    let after = table_step(values, v, first).0;
    lemma_first_hit(first);
    lemma_first_hit(second);
    assert forall|k: int| 0 <= k < first.len() implies #[trigger] first[k] == second[k] by {
        assert(after[k] == values[k]);
        assert(second[k] ==> may_be_within(after[k], v, tolerance));
    }
    let (i, j) = (first_hit(first), first_hit(second));
    if i < first.len() {
        assert(second[i]);
        if j < i {
            assert(first[j] == second[j]);
        }
    } else {
        assert(after[values.len() as int] == v);
        assert(second[values.len() as int]);
        if j < values.len() {
            assert(first[j] == second[j]);
        }
    }
}

/// `1e-12`: the distance within which two folded values count as the same constant.
pub const CONST_FOLD_TOLERANCE: u64 = 0x3d71_9799_812d_ea11;

/// The cap on the number of nodes of the graph in which saturation works.
pub const DEFAULT_NODE_LIMIT: usize = 50_000;

/// The cap on the number of iterations of saturation.
pub const DEFAULT_ITER_LIMIT: usize = 60;

/// The partial evaluation of terms without the variable, for the analysis of classes of terms.
#[derive(Debug)]
pub struct ConstFold {
    pub consts: ConstTable,
}

/// The value that a class has after two classes with the values `a` and `b` were merged, and
/// whether it differs from the first and from the second.
pub open spec fn merged(a: Option<Complex64>, b: Option<Complex64>) -> (
    Option<Complex64>,
    bool,
    bool,
) {
    match (a, b) {
        (Some(_), None) => (a, false, true),
        (None, Some(_)) => (b, true, false),
        _ => (a, false, false),
    }
}

/// A merged class has a value when one of the two has one: the first that is there. Each of the two
/// differs from the outcome when it has none but the other has, and only then.
pub proof fn law_merged(a: Option<Complex64>, b: Option<Complex64>)
    ensures
        ({
            let (value, first, second) = merged(a, b);
            &&& value is Some <==> a is Some || b is Some
            &&& a is Some ==> value == a
            &&& a is None ==> value == b
            &&& first <==> a is None && b is Some
            &&& second <==> b is None && a is Some
        }),
{
}

impl ConstFold {
    pub fn new(consts: ConstTable) -> (r: Self)
        ensures
            r.consts == consts,
    {
        ConstFold { consts }
    }

    /// The value of a term, given the values of the two terms that it may be over. The variable
    /// has none, nor has the primitive when one of its operands has none.
    pub fn make(
        &self,
        enode: &L,
        left: Option<Complex64>,
        right: Option<Complex64>,
    ) -> (r: Option<Complex64>)
        requires
            term_known(*enode, self.consts.values()),
        ensures
            match *enode {
                L::Var => r is None,
                L::Const(id) => r == Some(self.consts.values()[id.0 as int]),
                L::Prim(_, _) => match (left, right) {
                    (Some(a), Some(b)) => r matches Some(v) && prim_outcome(a, b, v),
                    _ => r is None,
                },
            },
    {
        match enode {
            L::Var => None,
            L::Const(id) => Some(self.consts.get(*id)),
            L::Prim(_, _) => match (left, right) {
                (Some(a), Some(b)) => Some(eml(a, b)),
                _ => None,
            },
        }
    }

    /// Merges the value `b` into `a`, and returns whether the outcome differs from the old `a`
    /// and from `b`. Where both are known, they are taken to be the same and `a` stays.
    pub fn merge(&self, a: &mut Option<Complex64>, b: Option<Complex64>) -> (r: (bool, bool))
        ensures
            (*final(a), r.0, r.1) == merged(*old(a), b),
    {
        match (*a, b) {
            (Some(_), None) => (false, true),
            (None, Some(_)) => {
                *a = b;
                (true, false)
            },
            _ => (false, false),
        }
    }

    /// The constant to be put into a class with the value `val`: none when the value is not
    /// known or not finite, and otherwise the one that is near enough, or a new one.
    pub fn modify(&mut self, val: Option<Complex64>) -> (r: Option<ConstId>)
        requires
            old(self).consts.values().len() <= u32::MAX,
        ensures
            r is Some <==> val is Some && val->0.finite(),
            r is None ==> final(self).consts.values() == old(self).consts.values(),
            r matches Some(id) ==> id.0 < final(self).consts.values().len() && exists|
                verdicts: Seq<bool>,
            | #[trigger]
                near_possible(
                    old(self).consts.values(),
                    val->0,
                    CONST_FOLD_TOLERANCE,
                    verdicts,
                ) && (final(self).consts.values(), id.0 as int) == table_step(
                    old(self).consts.values(),
                    val->0,
                    verdicts,
                ),
    {
        match val {
            Some(v) => if check_finite(v.re) && check_finite(v.im) {
                Some(self.consts.intern_approx(v, CONST_FOLD_TOLERANCE))
            } else {
                None
            },
            None => None,
        }
    }
}

impl Clone for ConstFold {
    fn clone(&self) -> (r: Self)
        ensures
            r.consts.values() == self.consts.values(),
    {
        ConstFold { consts: self.consts.clone() }
    }
}

impl Default for ConstFold {
    fn default() -> (r: Self)
        ensures
            r.consts.values() == Seq::<Complex64>::empty(),
    {
        ConstFold { consts: ConstTable::new() }
    }
}

/// How many operands a term has.
pub open spec fn arity(term: L) -> nat {
    if term is Prim {
        2
    } else {
        0
    }
}

/// The number of leaves and primitives of a term, given those of its operands.
pub open spec fn op_cost(term: L, costs: Seq<u64>) -> int {
    if term is Prim {
        1 + costs[0] + costs[1]
    } else {
        1
    }
}

/// The size of a term when written as bytes, given those of its operands: a tag, and two
/// indices of four bytes for the primitive or two numbers of eight bytes for a constant.
pub open spec fn byte_cost(term: L, costs: Seq<u64>) -> int {
    match term {
        L::Var => 1,
        L::Const(_) => 17,
        L::Prim(_, _) => 9 + costs[0] + costs[1],
    }
}

/// The cost by which expressions are chosen: the number of leaves and primitives.
pub struct OpCountCost;

impl OpCountCost {
    /// The cost of a term, given those of its operands in order.
    pub fn cost(&self, enode: &L, costs: &Vec<u64>) -> (r: u64)
        requires
            costs@.len() == arity(*enode),
            op_cost(*enode, costs@) <= u64::MAX,
        ensures
            r == op_cost(*enode, costs@),
    {
        match enode {
            L::Prim(_, _) => 1 + costs[0] + costs[1],
            _ => 1,
        }
    }
}

/// Another cost: the size when written as bytes.
pub struct ByteSizeCost;

impl ByteSizeCost {
    /// The cost of a term, given those of its operands in order.
    pub fn cost(&self, enode: &L, costs: &Vec<u64>) -> (r: u64)
        requires
            costs@.len() == arity(*enode),
            byte_cost(*enode, costs@) <= u64::MAX,
        ensures
            r == byte_cost(*enode, costs@),
    {
        match enode {
            L::Var => 1,
            L::Const(_) => 17,
            L::Prim(_, _) => 9 + costs[0] + costs[1],
        }
    }
}

/// The cost by which expressions are chosen, added up from the leaves, is the number of leaves
/// and primitives of the whole expression.
pub proof fn law_op_cost_counts(terms: Seq<L>, values: Seq<Complex64>, k: int, costs: Seq<u64>)
    requires
        steps_ok(term_steps(terms, values)),
        0 <= k < terms.len(),
        costs.len() == arity(terms[k]),
        terms[k] matches L::Prim(i, j) ==> costs[0] == ops(
            step_tree(term_steps(terms, values), i as int),
        ) && costs[1] == ops(step_tree(term_steps(terms, values), j as int)),
    ensures
        op_cost(terms[k], costs) == ops(step_tree(term_steps(terms, values), k)),
{
    let steps = term_steps(terms, values);
    assert(step_ok(steps, k));
    if let L::Prim(i, j) = terms[k] {
        assert(step_tree(steps, k) == Expr::Prim(
            Box::new(step_tree(steps, i as int)),
            Box::new(step_tree(steps, j as int)),
        ));
    }
}

/// How often the variable occurs in an expression.
pub open spec fn variables(e: Expr) -> nat
    decreases e,
{
    match e {
        Expr::Var => 1,
        Expr::Const(_) => 0,
        Expr::Prim(a, b) => variables(*a) + variables(*b),
    }
}

/// The size of an expression: a byte for each variable, seventeen for each constant, and nine for
/// each primitive, of which there is one less than leaves.
pub open spec fn byte_size(e: Expr) -> int {
    variables(e) + 17 * constants(e) + 9 * (variables(e) + constants(e) - 1)
}

/// The size when written as bytes, added up from the leaves, is the size of the whole expression.
pub proof fn law_byte_cost_adds_up(terms: Seq<L>, values: Seq<Complex64>, k: int, costs: Seq<u64>)
    requires
        steps_ok(term_steps(terms, values)),
        0 <= k < terms.len(),
        costs.len() == arity(terms[k]),
        terms[k] matches L::Prim(i, j) ==> costs[0] == byte_size(
            step_tree(term_steps(terms, values), i as int),
        ) && costs[1] == byte_size(step_tree(term_steps(terms, values), j as int)),
    ensures
        byte_cost(terms[k], costs) == byte_size(step_tree(term_steps(terms, values), k)),
{
    let steps = term_steps(terms, values);
    assert(step_ok(steps, k));
    if let L::Prim(i, j) = terms[k] {
        assert(step_tree(steps, k) == Expr::Prim(
            Box::new(step_tree(steps, i as int)),
            Box::new(step_tree(steps, j as int)),
        ));
    }
}

} // verus!
