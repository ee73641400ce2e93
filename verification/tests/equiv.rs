use expr_minimizer::arena::{Interner, Op};
use expr_minimizer::complex::Complex64;
use expr_minimizer::equiv::collapse_equivalent_subtrees;
use expr_minimizer::fingerprint::sample_bytes;
use expr_minimizer::parser::parse;
use expr_minimizer::plan::{run_plan, Step};
use expr_minimizer::stochastic::op_count;

type Pair = num_complex::Complex64;

fn c(re: f64, im: f64) -> Complex64 {
    Complex64::new(re.to_bits(), im.to_bits())
}

fn lift(z: Complex64) -> Pair {
    Pair::new(f64::from_bits(z.re), f64::from_bits(z.im))
}

fn eval(plan: &Vec<Step>, x: Complex64) -> Complex64 {
    let z = run_plan(plan, x, &lift, &|a: &Pair, b: &Pair| a.exp() - b.ln());
    c(z.re, z.im)
}

#[test]
fn collapses_a_three_way_equivalence_class_to_the_cheapest_member() {
    let mut it = Interner::new();
    let x = it.intern_var();
    let one = it.intern_const(c(1.0, 0.0));

    let small = it.intern_prim(x, one);
    let medium = it.intern_prim(small, one);
    let large = it.intern_prim(medium, one);

    assert_ne!(small, medium);
    assert_ne!(medium, large);

    let dup_of_small_a = it.intern_prim(x, one);
    let dup_of_small_b = it.intern_prim(x, one);
    assert_eq!(small, dup_of_small_a);
    assert_eq!(small, dup_of_small_b);

    let one_a = it.intern_const(c(1.0, 0.0));
    let one_b = it.intern_const(c(1.0, 0.0));
    let one_c = it.intern_const(c(1.0, 0.0));
    assert_eq!(one, one_a);
    assert_eq!(one_a, one_b);
    assert_eq!(one_b, one_c);

    let root = large;
    let before_bytes = sample_bytes(&it, root, &eval);
    let collapsed = collapse_equivalent_subtrees(&mut it, root, 8, &eval);
    let after_bytes = sample_bytes(&it, collapsed, &eval);
    assert_eq!(before_bytes, after_bytes);
}

#[test]
fn no_spurious_collapse_of_genuinely_different_functions() {
    let mut it = Interner::new();
    let x = it.intern_var();
    let c1 = it.intern_const(c(1.0, 0.0));
    let c2 = it.intern_const(c(2.0, 0.0));
    let e1 = it.intern_prim(x, c1);
    let e2 = it.intern_prim(x, c2);

    let root = it.intern_prim(e1, e2);
    let before = sample_bytes(&it, root, &eval);
    let collapsed = collapse_equivalent_subtrees(&mut it, root, 8, &eval);
    let after = sample_bytes(&it, collapsed, &eval);
    assert_eq!(before, after, "collapsing must never change the function");
}

#[test]
fn fixed_point_terminates_and_is_idempotent() {
    let mut it = Interner::new();
    let x = it.intern_var();
    let k = it.intern_const(c(3.0, -2.0));
    let inner = it.intern_prim(x, k);
    let outer = it.intern_prim(inner, inner);

    let once = collapse_equivalent_subtrees(&mut it, outer, 8, &eval);
    let twice = collapse_equivalent_subtrees(&mut it, once, 8, &eval);
    assert_eq!(
        op_count(&it, once),
        op_count(&it, twice),
        "running the collapse again on an already-fixed-point tree must not change its cost"
    );
}

/// A stand-in arithmetic in which the primitive adds: many different shapes have the same value.
fn adding(plan: &Vec<Step>, x: Complex64) -> Complex64 {
    let z = run_plan(plan, x, &|z: Complex64| f64::from_bits(z.re), &|a: &f64, b: &f64| a + b);
    c(z, 0.0)
}

#[test]
fn a_cheaper_member_that_comes_first_is_used() {
    let mut it = Interner::new();
    let root = parse(&mut it, "f(2, f(1, 1))").unwrap();
    let collapsed = collapse_equivalent_subtrees(&mut it, root, 8, &adding);
    assert_eq!(op_count(&it, collapsed), 3);
    let n = *it.node(collapsed);
    assert_eq!(n.a, n.b);
}

#[test]
fn a_cheaper_member_that_comes_last_is_used() {
    let mut it = Interner::new();
    let root = parse(&mut it, "f(f(1, 1), 2)").unwrap();
    let collapsed = collapse_equivalent_subtrees(&mut it, root, 8, &adding);
    assert_eq!(op_count(&it, collapsed), 3);
    let n = *it.node(collapsed);
    assert_eq!(n.op, Op::Prim);
    assert_eq!(n.a, n.b);
    assert_eq!(it.node(n.a).const_val, Some(c(2.0, 0.0)));
}

#[test]
fn one_pass_alone_keeps_the_order_of_the_walk() {
    let mut it = Interner::new();
    let root = parse(&mut it, "f(f(1, 1), 2)").unwrap();
    assert_eq!(collapse_equivalent_subtrees(&mut it, root, 1, &adding), root);
    assert_eq!(collapse_equivalent_subtrees(&mut it, root, 0, &adding), root);
}

#[test]
fn whole_expression_collapses_onto_a_part() {
    let mut it = Interner::new();
    let root = parse(&mut it, "f(f(4, 0), 0)").unwrap();
    let collapsed = collapse_equivalent_subtrees(&mut it, root, 8, &adding);
    assert_eq!(op_count(&it, collapsed), 1);
    assert_eq!(it.node(collapsed).const_val, Some(c(4.0, 0.0)));
}

#[test]
fn enough_passes_settle() {
    let mut it = Interner::new();
    let root = parse(&mut it, "f(f(f(0, 1), x), f(1, f(f(0, 1), f(x, f(0, 1)))))").unwrap();
    let enough = op_count(&it, root) as usize + 1;
    let once = collapse_equivalent_subtrees(&mut it, root, enough, &eval);
    assert!(op_count(&it, once) < op_count(&it, root));
    for k in [0, 1, 2, enough] {
        assert_eq!(collapse_equivalent_subtrees(&mut it, once, k, &eval), once);
    }
    assert_eq!(collapse_equivalent_subtrees(&mut it, root, 0, &eval), root);
}
