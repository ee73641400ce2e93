use expr_minimizer::arena::Interner;
use expr_minimizer::complex::Complex64;
use expr_minimizer::fingerprint::{
    encode_samples, fingerprint, sample_bytes, sample_points, FingerprintIndex,
    EVAL_PRECISION_BITS,
};
use expr_minimizer::plan::{intern_steps, make_plan, run_plan, Step};

type Pair = num_complex::Complex64;

fn c(re: f64, im: f64) -> Complex64 {
    Complex64::new(re.to_bits(), im.to_bits())
}

fn lift(z: Complex64) -> Pair {
    Pair::new(f64::from_bits(z.re), f64::from_bits(z.im))
}

fn eval(plan: &Vec<Step>, x: Complex64) -> Complex64 {
    let z = run_plan(plan, x, &lift, &|a: &Pair, b: &Pair| a.exp() - b.ln());
    c(z.re, z.im)
}

#[test]
fn equal_expressions_share_a_bucket() {
    let mut it = Interner::new();
    let x = it.intern_var();
    let k = it.intern_const(c(0.5, 0.25));
    let e1 = it.intern_prim(x, k);
    let e2 = it.intern_prim(x, k);
    assert_eq!(fingerprint(&it, e1, &eval), fingerprint(&it, e2, &eval));
}

#[test]
fn different_expressions_different_fingerprint() {
    let mut it = Interner::new();
    let x = it.intern_var();
    let c1 = it.intern_const(c(0.5, 0.25));
    let c2 = it.intern_const(c(1.5, -0.75));
    let e1 = it.intern_prim(x, c1);
    let e2 = it.intern_prim(x, c2);
    assert_ne!(
        fingerprint(&it, e1, &eval),
        fingerprint(&it, e2, &eval),
        "structurally different expressions should not collide at 6 generic sample points"
    );
}

#[test]
fn mathematically_equal_but_syntactically_different_expressions_collide() {
    let mut it1 = Interner::new();
    let x1 = it1.intern_var();
    let c1 = it1.intern_const(c(2.0, -1.0));
    let e1 = it1.intern_prim(x1, c1);

    let mut it2 = Interner::new();
    let _dummy = it2.intern_const(c(99.0, 99.0));
    let x2 = it2.intern_var();
    let c2 = it2.intern_const(c(2.0, -1.0));
    let e2 = it2.intern_prim(x2, c2);

    assert_ne!(e1, e2, "node IDs differ across separate interners/arenas");
    assert_eq!(
        fingerprint(&it1, e1, &eval),
        fingerprint(&it2, e2, &eval),
        "same function, different node IDs/arenas -> same fingerprint bucket"
    );
    assert_eq!(make_plan(&it1, e1), make_plan(&it2, e2));
}

#[test]
fn plans_evaluate_shared_nodes_once() {
    let mut it = Interner::new();
    let x = it.intern_var();
    let k = it.intern_const(c(3.0, 0.0));
    let inner = it.intern_prim(x, k);
    let outer = it.intern_prim(inner, inner);
    assert_eq!(
        make_plan(&it, outer),
        vec![Step::Var, Step::Const(c(3.0, 0.0)), Step::Prim(0, 1), Step::Prim(2, 2)]
    );
}

#[test]
fn plans_run_in_any_arithmetic() {
    let plan = vec![Step::Var, Step::Const(c(3.0, 0.0)), Step::Prim(0, 1), Step::Prim(2, 2)];
    let text = run_plan(
        &plan,
        c(7.0, 0.0),
        &|z: Complex64| format!("{}", f64::from_bits(z.re)),
        &|a: &String, b: &String| format!("({a} {b})"),
    );
    assert_eq!(text, "((7 3) (7 3))");
}

#[test]
fn plans_are_interned_step_by_step() {
    let plan = vec![Step::Var, Step::Const(c(3.0, 0.0)), Step::Prim(0, 1), Step::Prim(2, 2)];
    let mut it = Interner::new();
    it.intern_const(c(1.0, 0.0));
    let ids = intern_steps(&mut it, &plan);
    assert_eq!(ids, vec![1, 2, 3, 4]);
    assert_eq!(make_plan(&it, 4), plan);
}

#[test]
fn sample_points_are_the_six_fixed_ones() {
    assert_eq!(
        sample_points(),
        [
            c(0.371, 0.912),
            c(-1.234, 0.567),
            c(2.718, -0.318),
            c(-0.618, -1.414),
            c(1.618, 2.236),
            c(-2.5, 1.1),
        ]
    );
    assert_eq!(EVAL_PRECISION_BITS, 192);
}

#[test]
fn samples_are_written_least_significant_byte_first() {
    let z = Complex64::new(0x0102_0304_0506_0708, 0x1112_1314_1516_1718);
    assert_eq!(
        encode_samples(&vec![z]),
        vec![8, 7, 6, 5, 4, 3, 2, 1, 0x18, 0x17, 0x16, 0x15, 0x14, 0x13, 0x12, 0x11]
    );
    assert_ne!(encode_samples(&vec![c(1.0, 2.0)]), encode_samples(&vec![c(2.0, 1.0)]));
}

#[test]
fn variable_samples_are_the_points_themselves() {
    let mut it = Interner::new();
    let x = it.intern_var();
    let bytes = sample_bytes(&it, x, &eval);
    assert_eq!(bytes, encode_samples(&sample_points().to_vec()));
    assert_eq!(bytes.len(), 96);
    assert_eq!(fingerprint(&it, x, &eval), xxhash_rust::xxh3::xxh3_64(&bytes));
}

#[test]
fn buckets_keep_the_order_of_insertion() {
    let mut it = Interner::new();
    let x = it.intern_var();
    let k = it.intern_const(c(2.0, 0.0));
    let e = it.intern_prim(x, k);
    let mut index = FingerprintIndex::new();
    let fp = index.insert(&it, e, &eval);
    assert_eq!(index.candidates(fp), &[e]);
    let other = index.insert(&it, x, &eval);
    assert_ne!(fp, other);
    index.insert_with(k, fp);
    assert_eq!(index.candidates(fp), &[e, k]);
    assert_eq!(index.candidates(other), &[x]);
    let absent: &[u32] = &[];
    assert_eq!(index.candidates(fp ^ other ^ 1), absent);
    assert_eq!(FingerprintIndex::default().candidates(fp), absent);
}
