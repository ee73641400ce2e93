use expr_minimizer::arena::{Arena, Interner, Node, Op, NIL};
use expr_minimizer::complex::{eml, within, Complex64};
use expr_minimizer::config::MACHINE_TOLERANCE;

fn c(re: f64, im: f64) -> Complex64 {
    Complex64::new(re.to_bits(), im.to_bits())
}

#[test]
fn dedup_prim_same_children() {
    let mut it = Interner::new();
    let x = it.intern_var();
    let c = it.intern_const(c(2.0, 0.0));
    let id1 = it.intern_prim(x, c);
    let id2 = it.intern_prim(x, c);
    assert_eq!(id1, id2, "interning the same (op, a, b) twice must return the same ID");
    assert_eq!(it.len(), 3, "no duplicate node should have been allocated");
}

#[test]
fn dedup_var_is_singleton() {
    let mut it = Interner::new();
    let v1 = it.intern_var();
    let v2 = it.intern_var();
    assert_eq!(v1, v2);
    assert_eq!(it.len(), 1);
}

#[test]
fn dedup_const_exact_bits() {
    let mut it = Interner::new();
    let a = it.intern_const(c(1.5, -0.25));
    let b = it.intern_const(c(1.5, -0.25));
    assert_eq!(a, b);
    assert_eq!(it.len(), 1);
}

#[test]
fn distinct_children_do_not_collapse() {
    let mut it = Interner::new();
    let x = it.intern_var();
    let c1 = it.intern_const(c(1.0, 0.0));
    let c2 = it.intern_const(c(2.0, 0.0));
    let id1 = it.intern_prim(x, c1);
    let id2 = it.intern_prim(x, c2);
    assert_ne!(id1, id2);
    assert_eq!(it.len(), 5);
}

#[test]
fn structurally_nested_dedup() {
    let mut it = Interner::new();
    let x = it.intern_var();
    let c = it.intern_const(c(3.0, 1.0));
    let inner1 = it.intern_prim(x, c);
    let inner2 = it.intern_prim(x, c);
    assert_eq!(inner1, inner2);
    let outer = it.intern_prim(inner1, inner2);
    assert_eq!(it.len(), 4);
    let outer_node = it.node(outer);
    assert_eq!(outer_node.a, outer_node.b);
}

#[test]
fn near_constants_share_a_node() {
    let mut it = Interner::default();
    let a = it.intern_const(c(1.0, 0.0));
    let b = it.intern_const(c(1.0 + 1e-13, 0.0));
    let far = it.intern_const(c(1.0 + 1e-9, 0.0));
    assert_eq!(a, b);
    assert_ne!(a, far);
    assert_eq!(it.len(), 2);
    assert_eq!(it.node(a).const_val, Some(c(1.0, 0.0)));
}

#[test]
fn infinite_constants_are_interned_once() {
    let mut it = Interner::new();
    let a = it.intern_const(c(f64::INFINITY, 0.0));
    assert_eq!(it.intern_const(c(f64::INFINITY, 0.0)), a);
    assert_eq!(it.len(), 1);
    assert_ne!(it.intern_const(c(f64::NEG_INFINITY, 0.0)), a);
    let nan = it.intern_const(c(f64::NAN, 1.0));
    assert_eq!(it.intern_const(c(f64::NAN, 1.0)), nan);
    assert_eq!(it.len(), 3);
}

#[test]
fn constants_are_interned_by_given_verdicts() {
    let mut it = Interner::new();
    let a = it.intern_const(c(1.0, 0.0));
    let b = it.intern_const(c(5.0, 0.0));
    assert_eq!(it.constant_verdicts(c(5.0, 0.0)), vec![false, true]);
    assert_eq!(it.intern_const_with(c(7.0, 0.0), &vec![false, true]), b);
    assert_eq!(it.intern_const_with(c(7.0, 0.0), &vec![true, true]), a);
    let new = it.intern_const_with(c(7.0, 0.0), &vec![false, false]);
    assert_eq!(new, 2);
    assert_eq!(it.node(new).const_val, Some(c(7.0, 0.0)));
}

#[test]
fn arenas_hold_nodes_in_order() {
    let mut arena = Arena::new();
    assert!(arena.is_empty());
    let v = arena.push(Node::var());
    let k = arena.push(Node::constant(c(2.0, 0.0)));
    let p = arena.push(Node::prim(v, k));
    assert_eq!((v, k, p), (0, 1, 2));
    assert_eq!(arena.len(), 3);
    assert!(!arena.is_empty());
    assert_eq!(arena.get(p).op, Op::Prim);
    assert_eq!((arena.get(p).a, arena.get(p).b), (0, 1));
    assert_eq!((arena.get(v).a, arena.get(v).b), (NIL, NIL));
    let copy = arena.clone();
    assert_eq!(copy.len(), 3);
    assert_eq!(*copy.get(k), *arena.get(k));
    assert!(Arena::default().is_empty());
}

#[test]
fn interner_gives_its_arena_up() {
    let mut it = Interner::new();
    let x = it.intern_var();
    let k = it.intern_const(c(2.0, 0.0));
    it.intern_prim(x, k);
    let arena = it.into_arena();
    assert_eq!(arena.len(), 3);
    assert_eq!(arena.get(2).op, Op::Prim);
}

#[test]
fn primitive_is_exponential_less_logarithm() {
    let r = eml(c(1.0, 0.0), c(1.0, 0.0));
    assert!((f64::from_bits(r.re) - std::f64::consts::E).abs() < 1e-15);
    assert_eq!(f64::from_bits(r.im), 0.0);
    let s = eml(c(0.0, 0.0), c(-1.0, 0.0));
    assert!((f64::from_bits(s.re) - 1.0).abs() < 1e-15);
    assert!((f64::from_bits(s.im) + std::f64::consts::PI).abs() < 1e-15);
}

#[test]
fn distance_test_includes_the_tolerance() {
    assert!(within(c(1.0, 1.0), c(1.0, 1.0), 0));
    assert!(within(c(0.0, 0.0), c(3.0, 4.0), 5.0f64.to_bits()));
    assert!(!within(c(0.0, 0.0), c(3.0, 4.0), 4.9f64.to_bits()));
    assert!(!within(c(f64::NAN, 0.0), c(f64::NAN, 0.0), MACHINE_TOLERANCE));
}
