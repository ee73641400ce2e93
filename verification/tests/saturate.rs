use std::time::{Duration, Instant};

use egg::{
    Analysis, CostFunction, DidMerge, EGraph, Extractor, FromOp, Id, Language, Pattern, RecExpr,
    Rewrite, Runner, StopReason,
};

use expr_minimizer::arena::{Interner, Op};
use expr_minimizer::complex::Complex64;
use expr_minimizer::fingerprint::sample_bytes;
use expr_minimizer::minimize::{
    accept_extraction, check_takes_over, extract_minimal_arena, minimize_expr, rehydrate,
};
use expr_minimizer::parser::parse;
use expr_minimizer::plan::{run_plan, Step};
use expr_minimizer::render::to_expr_string;
use expr_minimizer::saturate::{
    arena_to_recexpr, check_terms, recexpr_to_arena, ByteSizeCost, ConstFold, ConstId, ConstTable,
    OpCountCost, CONST_FOLD_TOLERANCE, DEFAULT_ITER_LIMIT, DEFAULT_NODE_LIMIT, L,
};
use expr_minimizer::stochastic::SearchResult;

type Pair = num_complex::Complex64;

fn c(re: f64, im: f64) -> Complex64 {
    Complex64::new(re.to_bits(), im.to_bits())
}

fn lift(z: Complex64) -> Pair {
    Pair::new(f64::from_bits(z.re), f64::from_bits(z.im))
}

fn eval(plan: &Vec<Step>, x: Complex64) -> Complex64 {
    let z = run_plan(plan, x, &lift, &|a: &Pair, b: &Pair| a.exp() - b.ln());
    c(z.re, z.im)
}

/// The language as `egg` sees it.
#[derive(Clone, Debug, PartialEq, Eq, PartialOrd, Ord, Hash)]
enum Term {
    Prim([Id; 2]),
    Const(ConstId),
    Var,
}

impl Language for Term {
    fn matches(&self, other: &Self) -> bool {
        match (self, other) {
            (Term::Prim(_), Term::Prim(_)) | (Term::Var, Term::Var) => true,
            (Term::Const(a), Term::Const(b)) => a == b,
            _ => false,
        }
    }

    fn children(&self) -> &[Id] {
        match self {
            Term::Prim(ids) => ids,
            _ => &[],
        }
    }

    fn children_mut(&mut self) -> &mut [Id] {
        match self {
            Term::Prim(ids) => ids,
            _ => &mut [],
        }
    }
}

impl FromOp for Term {
    type Error = String;

    fn from_op(op: &str, children: Vec<Id>) -> Result<Self, String> {
        match (op, children.as_slice()) {
            ("f", [a, b]) => Ok(Term::Prim([*a, *b])),
            ("x", []) => Ok(Term::Var),
            (other, []) => ConstId::from_str(other).map(Term::Const),
            (other, _) => Err(other.to_string()),
        }
    }
}

fn to_lib(term: &Term) -> L {
    match term {
        Term::Prim([a, b]) => L::Prim(usize::from(*a), usize::from(*b)),
        Term::Const(id) => L::Const(*id),
        Term::Var => L::Var,
    }
}

fn to_egg(terms: &[L]) -> RecExpr<Term> {
    let mut expr = RecExpr::default();
    for term in terms {
        expr.add(match term {
            L::Prim(a, b) => Term::Prim([Id::from(*a), Id::from(*b)]),
            L::Const(id) => Term::Const(*id),
            L::Var => Term::Var,
        });
    }
    expr
}

struct Fold(ConstFold);

impl Analysis<Term> for Fold {
    type Data = Option<Complex64>;

    fn make(egraph: &EGraph<Term, Self>, enode: &Term) -> Self::Data {
        let (left, right) = match enode {
            Term::Prim([a, b]) => (egraph[*a].data, egraph[*b].data),
            _ => (None, None),
        };
        egraph.analysis.0.make(&to_lib(enode), left, right)
    }

    fn merge(&mut self, a: &mut Self::Data, b: Self::Data) -> DidMerge {
        let (first, second) = self.0.merge(a, b);
        DidMerge(first, second)
    }

    fn modify(egraph: &mut EGraph<Term, Self>, id: Id) {
        let data = egraph[id].data;
        if let Some(cid) = egraph.analysis.0.modify(data) {
            let added = egraph.add(Term::Const(cid));
            egraph.union(id, added);
        }
    }
}

struct Cost;

impl CostFunction<Term> for Cost {
    type Cost = u64;

    fn cost<C>(&mut self, enode: &Term, costs: C) -> u64
    where
        C: FnMut(Id) -> u64,
    {
        let children: Vec<u64> = enode.children().iter().copied().map(costs).collect();
        OpCountCost.cost(&to_lib(enode), &children)
    }
}

fn rules() -> Vec<Rewrite<Term, Fold>> {
    let left: Pattern<Term> = "(f ?a ?b)".parse().unwrap();
    let right: Pattern<Term> = "(f ?a ?b)".parse().unwrap();
    vec![Rewrite::new("placeholder-noop", left, right).unwrap()]
}

fn saturate(terms: &Vec<L>, consts: &ConstTable) -> (Vec<L>, ConstTable, bool) {
    let runner = Runner::<Term, Fold>::new(Fold(ConstFold::new(consts.clone())))
        .with_expr(&to_egg(terms))
        .with_time_limit(Duration::from_millis(200))
        .with_node_limit(DEFAULT_NODE_LIMIT)
        .with_iter_limit(DEFAULT_ITER_LIMIT)
        .run(&rules());
    let saturated = matches!(runner.stop_reason, Some(StopReason::Saturated));
    let extractor = Extractor::new(&runner.egraph, Cost);
    let (_cost, best) = extractor.find_best(runner.roots[0]);
    let out = best.as_ref().iter().map(to_lib).collect();
    (out, runner.egraph.analysis.0.consts.clone(), saturated)
}

#[test]
fn round_trip_arena_recexpr_arena() {
    let mut interner = Interner::new();
    let x = interner.intern_var();
    let k = interner.intern_const(c(1.0, 0.0));
    let root = interner.intern_prim(x, k);

    let mut consts = ConstTable::new();
    let expr = arena_to_recexpr(&interner, root, &mut consts);

    let mut interner2 = Interner::new();
    let round_tripped = recexpr_to_arena(&expr, &consts, &mut interner2);
    let node = interner2.node(round_tripped);
    assert_eq!(node.op, Op::Prim);
}

#[test]
fn saturation_harness_runs_with_placeholder_rules() {
    let mut interner = Interner::new();
    let x = interner.intern_var();
    let one = interner.intern_const(c(1.0, 0.0));
    let root = interner.intern_prim(x, one);

    let mut consts = ConstTable::new();
    let expr = arena_to_recexpr(&interner, root, &mut consts);
    let (out, _consts, _saturated) = saturate(&expr, &consts);
    assert!(!out.is_empty());
}

#[test]
fn const_fold_unifies_equal_values_from_different_shapes() {
    let mut consts = ConstTable::new();
    let zero = consts.intern(c(0.0, 0.0));
    let neg_one = consts.intern(c(-1.0, 0.0));
    let expected = Pair::new(0.0, 0.0).exp() - Pair::new(-1.0, 0.0).ln();
    let literal = consts.intern(c(expected.re, expected.im));

    let computed_expr = to_egg(&[L::Const(zero), L::Const(neg_one), L::Prim(0, 1)]);
    let literal_expr = to_egg(&[L::Const(literal)]);

    let mut egraph: EGraph<Term, Fold> = EGraph::new(Fold(ConstFold::new(consts)));
    let computed_id = egraph.add_expr(&computed_expr);
    let literal_id = egraph.add_expr(&literal_expr);
    egraph.rebuild();

    assert_eq!(
        egraph.find(computed_id),
        egraph.find(literal_id),
        "f(0, -1) and its literal folded value should land in the same e-class"
    );
}

#[test]
fn minimize_expr_accepts_parsed_text_input() {
    let mut interner = Interner::new();
    let root = parse(&mut interner, "f(f(x, 1), 1+0i)").expect("valid expression");
    let before_bytes = sample_bytes(&interner, root, &eval);

    let start = Instant::now();
    let in_time = || start.elapsed() < Duration::from_millis(300);
    let (out_arena, out_root, _op_count) =
        minimize_expr(&interner.arena, root, &eval, &saturate, &in_time);

    let (out_interner, _) = rehydrate(&out_arena);
    let after_bytes = sample_bytes(&out_interner, out_root, &eval);
    assert_eq!(
        before_bytes, after_bytes,
        "minimization of parsed input must not change the expression's function"
    );
}

#[test]
fn minimize_expr_preserves_functional_behavior() {
    let mut interner = Interner::new();
    let x = interner.intern_var();
    let k = interner.intern_const(c(1.0, 0.0));
    let root = interner.intern_prim(x, k);
    let before_bytes = sample_bytes(&interner, root, &eval);

    let start = Instant::now();
    let in_time = || start.elapsed() < Duration::from_millis(300);
    let (out_arena, out_root, _op_count) =
        minimize_expr(&interner.arena, root, &eval, &saturate, &in_time);

    let (out_interner, _) = rehydrate(&out_arena);
    let after_bytes = sample_bytes(&out_interner, out_root, &eval);
    assert_eq!(
        before_bytes, after_bytes,
        "minimization must not change the expression's function"
    );
}

#[test]
fn minimization_folds_constant_parts() {
    let mut interner = Interner::new();
    let root = parse(&mut interner, "f(x, f(0, 1))").unwrap();
    let (arena, out_root, count) =
        minimize_expr(&interner.arena, root, &eval, &saturate, &|| false);
    let (out, _) = rehydrate(&arena);
    assert_eq!(to_expr_string(&out, out_root), "eml(x,1)");
    assert_eq!(count, 3);
    assert_eq!(arena.len(), 3);
}

#[test]
fn minimization_never_trusts_an_extraction_with_other_samples() {
    let mut interner = Interner::new();
    let root = parse(&mut interner, "f(x, 2)").unwrap();
    let wrong = |_: &Vec<L>, consts: &ConstTable| (vec![L::Var], consts.clone(), true);
    let (arena, out_root, count) = minimize_expr(&interner.arena, root, &eval, &wrong, &|| false);
    let (out, _) = rehydrate(&arena);
    assert_eq!(to_expr_string(&out, out_root), "eml(x,2)");
    assert_eq!(count, 3);
    let broken = |_: &Vec<L>, consts: &ConstTable| (vec![L::Prim(0, 7)], consts.clone(), false);
    let (arena, out_root, _) = minimize_expr(&interner.arena, root, &eval, &broken, &|| false);
    let (out, _) = rehydrate(&arena);
    assert_eq!(to_expr_string(&out, out_root), "eml(x,2)");
}

/// A value that keeps the exponent of a number too small for binary64.
#[derive(Clone, Copy)]
enum Wide {
    Plain(Pair),
    Tiny(Pair),
}

fn wide_eval(plan: &Vec<Step>, x: Complex64) -> Complex64 {
    let prim = |a: &Wide, b: &Wide| {
        let log = match b {
            Wide::Plain(z) => z.ln(),
            Wide::Tiny(z) => *z,
        };
        match a {
            Wide::Plain(z) if z.re < -800.0 && log.norm() == 0.0 => Wide::Tiny(*z),
            Wide::Plain(z) => Wide::Plain(z.exp() - log),
            Wide::Tiny(_) => Wide::Plain(Pair::new(1.0, 0.0) - log),
        }
    };
    match run_plan(plan, x, &|z: Complex64| Wide::Plain(lift(z)), &prim) {
        Wide::Plain(z) => c(z.re, z.im),
        Wide::Tiny(_) => c(0.0, 0.0),
    }
}

#[test]
fn collapse_that_changes_the_samples_is_not_kept() {
    let mut interner = Interner::new();
    let root = parse(&mut interner, "f(0, f(-1000, 1))").unwrap();
    let before = sample_bytes(&interner, root, &wide_eval);
    let as_is = |terms: &Vec<L>, consts: &ConstTable| (terms.clone(), consts.clone(), true);
    let (arena, out_root, count) =
        minimize_expr(&interner.arena, root, &wide_eval, &as_is, &|| false);
    let (out, _) = rehydrate(&arena);
    assert_eq!(sample_bytes(&out, out_root, &wide_eval), before);
    assert_eq!(to_expr_string(&out, out_root), "eml(0,eml(-1000,1))");
    assert_eq!(count, 5);
}

#[test]
fn dearer_extractions_are_not_taken() {
    let mut interner = Interner::new();
    let root = parse(&mut interner, "f(x, 1)").unwrap();
    let dearer = |_: &Vec<L>, consts: &ConstTable| {
        let mut more = consts.clone();
        let zero = more.intern(c(0.0, 0.0));
        let one = more.intern(c(1.0, 0.0));
        let terms = vec![
            L::Var,
            L::Const(zero),
            L::Const(one),
            L::Prim(1, 2),
            L::Prim(0, 3),
        ];
        (terms, more, true)
    };
    let (arena, out_root, count) = minimize_expr(&interner.arena, root, &eval, &dearer, &|| false);
    let (out, _) = rehydrate(&arena);
    assert_eq!(to_expr_string(&out, out_root), "eml(x,1)");
    assert_eq!(count, 3);
}

#[test]
fn extraction_is_taken_when_its_samples_agree() {
    let mut interner = Interner::new();
    let root = parse(&mut interner, "f(x, f(0, 1))").unwrap();
    let target = sample_bytes(&interner, root, &eval);
    let mut consts = ConstTable::new();
    let one = consts.intern(c(1.0, 0.0));
    let two = consts.intern(c(2.0, 0.0));
    let good = vec![L::Var, L::Const(one), L::Prim(0, 1)];
    let bad = vec![L::Var, L::Const(two), L::Prim(0, 1)];
    let best = accept_extraction(&mut interner, root, &target, &good, &consts, &eval);
    assert_eq!(to_expr_string(&interner, best), "eml(x,1)");
    assert_eq!(accept_extraction(&mut interner, root, &target, &bad, &consts, &eval), root);
    assert_eq!(accept_extraction(&mut interner, root, &target, &vec![], &consts, &eval), root);
}

#[test]
fn search_outcome_takes_over_when_exact_and_cheaper() {
    let result = |fit: f64, exact: bool| SearchResult {
        best: 1,
        best_fitness: fit.to_bits(),
        generations_run: 3,
        exact_match_found: exact,
    };
    let lambda = 0.05f64.to_bits();
    assert!(check_takes_over(&result(-0.15, true), 5, lambda));
    assert!(!check_takes_over(&result(-0.15, false), 5, lambda));
    assert!(!check_takes_over(&result(-0.25, true), 5, lambda));
    assert!(!check_takes_over(&result(-0.35, true), 5, lambda));
}

#[test]
fn round_trip_keeps_the_expression() {
    let mut interner = Interner::new();
    let root = parse(&mut interner, "f(f(x, 2), f(f(x, 2), 1-3i))").unwrap();
    let mut consts = ConstTable::new();
    let terms = arena_to_recexpr(&interner, root, &mut consts);
    assert_eq!(
        terms,
        vec![
            L::Var,
            L::Const(ConstId(0)),
            L::Prim(0, 1),
            L::Const(ConstId(1)),
            L::Prim(2, 3),
            L::Prim(2, 4),
        ]
    );
    assert_eq!(consts.get(ConstId(1)), c(1.0, -3.0));
    let mut other = Interner::new();
    let back = recexpr_to_arena(&terms, &consts, &mut other);
    assert_eq!(to_expr_string(&other, back), to_expr_string(&interner, root));
}

#[test]
fn terms_are_checked() {
    let mut consts = ConstTable::new();
    let one = consts.intern(c(1.0, 0.0));
    assert!(check_terms(&vec![L::Const(one)], &consts));
    assert!(!check_terms(&vec![], &consts));
    assert!(!check_terms(&vec![L::Const(ConstId(1))], &consts));
    assert!(!check_terms(&vec![L::Var, L::Prim(0, 1)], &consts));
    assert!(check_terms(&vec![L::Var, L::Prim(0, 0)], &consts));
}

#[test]
fn const_ids_have_a_text() {
    assert_eq!(ConstId(0).to_text(), "c0");
    assert_eq!(ConstId(4294967295).to_text(), "c4294967295");
    assert_eq!(ConstId::from_str("c4294967295"), Ok(ConstId(4294967295)));
    assert_eq!(ConstId::from_str("c+07"), Ok(ConstId(7)));
    for bad in ["", "c", "c+", "7", "c-1", "c4294967296", "c1x", "C1"] {
        assert_eq!(ConstId::from_str(bad), Err(format!("invalid ConstId literal: {bad}")));
    }
}

#[test]
fn tables_tell_constants_apart_by_bits_or_by_distance() {
    let mut table = ConstTable::new();
    let a = table.intern(c(1.0, 0.0));
    let b = table.intern(c(1.0 + 1e-14, 0.0));
    assert_ne!(a, b);
    assert_eq!(table.intern(c(1.0, 0.0)), a);
    assert_ne!(table.intern(c(1.0, -0.0)), a);
    assert_eq!(table.intern_approx(c(1.0 + 1e-13, 0.0), CONST_FOLD_TOLERANCE), a);
    let far = table.intern_approx(c(2.0, 0.0), CONST_FOLD_TOLERANCE);
    assert_eq!(far, ConstId(3));
    assert_eq!(table.len(), 4);
    assert_eq!(table.get(far), c(2.0, 0.0));
    let near = table.near_verdicts(c(2.0, 0.0), 1.0f64.to_bits());
    assert_eq!(near, vec![true, true, true, true]);
    assert_eq!(ConstTable::default().len(), 0);
}

#[test]
fn folding_decides_on_values() {
    let mut consts = ConstTable::new();
    let one = consts.intern(c(1.0, 0.0));
    let mut fold = ConstFold::new(consts);
    assert_eq!(fold.make(&L::Var, None, None), None);
    assert_eq!(fold.make(&L::Const(one), None, None), Some(c(1.0, 0.0)));
    assert_eq!(fold.make(&L::Prim(0, 1), Some(c(0.0, 0.0)), None), None);
    let v = fold.make(&L::Prim(0, 1), Some(c(0.0, 0.0)), Some(c(1.0, 0.0))).unwrap();
    assert_eq!(f64::from_bits(v.re), 1.0);

    let known = Some(c(3.0, 0.0));
    let mut data = None;
    assert_eq!(fold.merge(&mut data, known), (true, false));
    assert_eq!(data, known);
    assert_eq!(fold.merge(&mut data, None), (false, true));
    assert_eq!(fold.merge(&mut data, Some(c(3.0, 1e-15))), (false, false));
    assert_eq!(data, known);
    let mut nothing = None;
    assert_eq!(fold.merge(&mut nothing, None), (false, false));

    assert_eq!(fold.modify(None), None);
    assert_eq!(fold.modify(Some(c(f64::INFINITY, 0.0))), None);
    assert_eq!(fold.modify(Some(c(1.0, 1e-14))), Some(one));
    assert_eq!(fold.modify(known), Some(ConstId(1)));
    assert_eq!(fold.clone().consts.len(), 2);
    assert_eq!(ConstFold::default().consts.len(), 0);
}

#[test]
fn costs_add_up() {
    assert_eq!(OpCountCost.cost(&L::Var, &vec![]), 1);
    assert_eq!(OpCountCost.cost(&L::Const(ConstId(0)), &vec![]), 1);
    assert_eq!(OpCountCost.cost(&L::Prim(0, 1), &vec![3, 4]), 8);
    assert_eq!(ByteSizeCost.cost(&L::Var, &vec![]), 1);
    assert_eq!(ByteSizeCost.cost(&L::Const(ConstId(0)), &vec![]), 17);
    assert_eq!(ByteSizeCost.cost(&L::Prim(0, 1), &vec![1, 17]), 27);
}

#[test]
fn rehydration_keeps_indices() {
    let mut interner = Interner::new();
    let root = parse(&mut interner, "f(f(x, 2), f(f(x, 2), 1-3i))").unwrap();
    let (again, map) = rehydrate(&interner.arena);
    assert_eq!(map, (0..interner.len() as u32).collect::<Vec<u32>>());
    assert_eq!(to_expr_string(&again, root), to_expr_string(&interner, root));
}

#[test]
fn extraction_drops_what_is_not_used() {
    let mut interner = Interner::new();
    parse(&mut interner, "f(7, 8)").unwrap();
    let root = parse(&mut interner, "f(f(x, 2), x)").unwrap();
    let (arena, out_root) = extract_minimal_arena(&interner, root);
    assert_eq!(arena.len(), 4);
    assert_eq!(out_root, 3);
    let (out, _) = rehydrate(&arena);
    assert_eq!(to_expr_string(&out, out_root), "eml(eml(x,2),x)");
}

#[test]
fn constants_come_out_of_minimization_bit_for_bit() {
    let mut it = Interner::new();
    let root = parse(&mut it, "f(0, 1)").unwrap();
    let folded = |_: &Vec<L>, consts: &ConstTable| {
        let mut more = consts.clone();
        let one = more.intern(c(1.0, 0.0));
        (vec![L::Const(one)], more, true)
    };
    let (arena, new_root, count) = minimize_expr(&it.arena, root, &eval, &folded, &|| false);
    assert_eq!((arena.len(), new_root, count), (1, 0, 1));
    assert_eq!(arena.get(0).op, Op::Const);
    assert_eq!(arena.get(0).const_val, Some(c(1.0, 0.0)));
}

#[test]
fn complete_saturation_leaves_nothing_to_time_or_chance() {
    let mut it = Interner::new();
    let root = parse(&mut it, "f(f(x, 1), f(f(x, 1), 0.1+2i))").unwrap();
    let before = sample_bytes(&it, root, &eval);
    let as_is = |terms: &Vec<L>, consts: &ConstTable| (terms.clone(), consts.clone(), true);
    let (one, i, n) = minimize_expr(&it.arena, root, &eval, &as_is, &|| true);
    let (two, j, m) = minimize_expr(&it.arena, root, &eval, &as_is, &|| false);
    assert_eq!((i, n), (j, m));
    assert_eq!(one.len(), two.len());
    for k in 0..one.len() as u32 {
        let (a, b) = (one.get(k), two.get(k));
        assert_eq!((a.op, a.a, a.b, a.const_val), (b.op, b.a, b.b, b.const_val));
    }
    let (out, map) = rehydrate(&one);
    assert_eq!(map, (0..one.len() as u32).collect::<Vec<u32>>());
    assert_eq!(sample_bytes(&out, i, &eval), before);
}

#[test]
fn terms_of_shared_expressions_are_interned_once() {
    let mut it = Interner::new();
    let root = parse(&mut it, "f(f(x, 0.1), f(f(x, 0.1), f(1-2i, x)))").unwrap();
    let mut consts = ConstTable::new();
    let terms = arena_to_recexpr(&it, root, &mut consts);
    assert_eq!(terms.len(), 7);
    let mut other = Interner::new();
    let again = recexpr_to_arena(&terms, &consts, &mut other);
    assert_eq!(other.len(), terms.len());
    assert_eq!(again as usize, other.len() - 1);
    assert_eq!(to_expr_string(&other, again), to_expr_string(&it, root));
    assert_eq!(sample_bytes(&other, again, &eval), sample_bytes(&it, root, &eval));
}

#[test]
fn near_values_are_looked_up_twice_with_the_same_outcome() {
    let mut t = ConstTable::new();
    let one = t.intern_approx(c(1.0, 0.0), CONST_FOLD_TOLERANCE);
    let near = c(1.0 + 1e-13, 0.0);
    assert_eq!(t.intern_approx(near, CONST_FOLD_TOLERANCE), one);
    assert_eq!(t.intern_approx(near, CONST_FOLD_TOLERANCE), one);
    let far = t.intern_approx(c(1.5, 0.0), CONST_FOLD_TOLERANCE);
    assert_eq!(t.intern_approx(c(1.5, 0.0), CONST_FOLD_TOLERANCE), far);
    assert_eq!(t.len(), 2);
}
