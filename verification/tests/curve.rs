use expr_minimizer::complex::Complex64;
use expr_minimizer::curve::{
    caption, check_visible, dashes, eml_stats, eval_node, linspace, sample_curve, y_range,
};
use expr_minimizer::expr::Expr;
use expr_minimizer::float::{
    check_finite, check_integral, check_nan, check_zero, eq, get_minus, get_product, get_quotient,
    get_sum, le, lt, negate, to_i64,
};
use expr_minimizer::subtree::{parse_eml, parse_number_string};

fn c(re: f64, im: f64) -> Complex64 {
    Complex64::new(re.to_bits(), im.to_bits())
}

fn show(e: &Expr) -> String {
    match e {
        Expr::Var => "x".to_string(),
        Expr::Const(v) => format!("{},{}", f64::from_bits(v.re), f64::from_bits(v.im)),
        Expr::Prim(a, b) => format!("({} {})", show(a), show(b)),
    }
}

fn read(text: &str) -> String {
    show(&parse_eml(text).unwrap())
}

#[test]
fn subtrees_are_read() {
    assert_eq!(read("x"), "x");
    assert_eq!(read(" eml( X , 1.5 ) "), "(x 1.5,0)");
    assert_eq!(read("EML(eml(1,2),3.14i)"), "((1,0 2,0) 0,3.14)");
    assert_eq!(read("1.234 + -3.14159i"), "1.234,-3.14159");
    assert_eq!(read("-1"), "-1,0");
    assert_eq!(read("i"), "0,1");
    assert_eq!(read("eml(pi,e)"), "(3.141592653589793,0 2.718281828459045,0)");
    assert_eq!(read("x [note]"), "x");
    assert_eq!(read("1e3"), "1000,0");
}

fn complaint(text: &str) -> String {
    parse_eml(text).unwrap_err()
}

#[test]
fn subtrees_that_cannot_be_read_are_explained() {
    assert_eq!(complaint(""), "Expected numeric token at pos 0");
    assert_eq!(complaint("y"), "Unknown identifier 'y'");
    assert_eq!(complaint("EML x"), "Expected '(' but found 'x' at pos 4");
    assert_eq!(complaint("eml(x"), "Expected ',' but found end of input");
    assert_eq!(complaint("eml(x,)"), "Expected numeric token at pos 6");
    assert_eq!(complaint("x y"), "Unexpected trailing content after parse: 'y'");
    assert_eq!(complaint("-in"), "Unrecognized numeric token: '-in'");
    assert_eq!(complaint("1 2"), "Unrecognized numeric token: '1 2'");
}

#[test]
fn numbers_are_read() {
    assert_eq!(parse_number_string(" +Inf "), Ok(c(f64::INFINITY, 0.0)));
    assert_eq!(parse_number_string("-inf"), Ok(c(f64::NEG_INFINITY, 0.0)));
    assert_eq!(parse_number_string("1+2I"), Ok(c(1.0, 2.0)));
    assert_eq!(parse_number_string("-2.5 +  +0.5i"), Ok(c(-2.5, 0.5)));
    assert_eq!(parse_number_string("7i"), Ok(c(0.0, 7.0)));
    assert_eq!(parse_number_string(".5"), Ok(c(0.5, 0.0)));
    assert_eq!(
        parse_number_string("1-2i"),
        Err("Unrecognized numeric token: '1-2i'".to_string())
    );
    assert_eq!(parse_number_string("\u{663}i"), Err("invalid float literal".to_string()));
}

#[test]
fn values_at_real_numbers() {
    let e = parse_eml("eml(x,1)").unwrap();
    let v = eval_node(&e, 2.0f64.to_bits());
    assert!((f64::from_bits(v.re) - 2.0f64.exp()).abs() < 1e-12);
    assert_eq!(eval_node(&Expr::Var, 2.0f64.to_bits()), c(2.0, 0.0));
    let xs = linspace(0.0f64.to_bits(), 1.0f64.to_bits(), 3);
    let values = sample_curve(&e, &xs);
    assert_eq!(values.len(), 3);
    assert_eq!(values[2], eval_node(&e, 1.0f64.to_bits()));
}

#[test]
fn statistics_count_nodes_leaves_and_depth() {
    let e = parse_eml("eml(eml(x,1),2)").unwrap();
    assert_eq!(eml_stats(&e), (5, 3, 3));
    assert_eq!(eml_stats(&Expr::Var), (1, 1, 1));
}

#[test]
fn numbers_at_equal_distances() {
    let bits = |xs: &[f64]| xs.iter().map(|x| x.to_bits()).collect::<Vec<u64>>();
    let (a, b) = ((-10.0f64).to_bits(), 10.0f64.to_bits());
    assert_eq!(linspace(a, b, 5), bits(&[-10.0, -5.0, 0.0, 5.0, 10.0]));
    assert_eq!(linspace(a, b, 1), bits(&[-10.0]));
    assert!(linspace(a, b, 0).is_empty());
}

#[test]
fn ranges_have_margins() {
    let range = |xs: &[f64]| {
        let (low, high) = y_range(&xs.iter().map(|x| x.to_bits()).collect());
        (f64::from_bits(low), f64::from_bits(high))
    };
    assert_eq!(range(&[0.0, 10.0, f64::INFINITY, f64::NAN]), (0.0 - 10.0 * 0.08, 10.0 + 10.0 * 0.08));
    assert_eq!(range(&[]), (-1.0 - 2.0 * 0.08, 1.0 + 2.0 * 0.08));
    assert_eq!(range(&[3.0]), (2.5 - 1.0 * 0.08, 3.5 + 1.0 * 0.08));
}

#[test]
fn small_imaginary_parts_are_invisible() {
    assert!(!check_visible(&vec![0, 1e-11f64.to_bits(), f64::NAN.to_bits()]));
    assert!(check_visible(&vec![0, (-1e-9f64).to_bits()]));
}

#[test]
fn dashed_lines() {
    assert_eq!(dashes(20, 6, 4), vec![(0, 6), (10, 16)]);
    assert_eq!(dashes(12, 6, 4), vec![(0, 6), (10, 12)]);
    assert_eq!(dashes(11, 6, 4), vec![(0, 6)]);
    assert_eq!(dashes(5, 2, 2), vec![(0, 2)]);
    assert_eq!(dashes(0, 6, 4), vec![]);
    assert_eq!(dashes(7, 3, usize::MAX), vec![(0, 3)]);
}

#[test]
fn captions_show_the_statistics() {
    assert_eq!(
        caption("e", 5, 3, 2),
        "e   EML summary: nodes = 5, leaves = 3, depth = 2"
    );
}

#[test]
fn bit_patterns_compare_as_numbers() {
    let samples = [
        0.0,
        -0.0,
        1.0,
        -1.0,
        0.5,
        1e-310,
        -1e-310,
        1e300,
        f64::INFINITY,
        f64::NEG_INFINITY,
        f64::NAN,
        2.0f64.powi(52) + 0.5,
        9.3e18,
        -9.3e18,
        123456.75,
        -7.0,
    ];
    for a in samples {
        let p = a.to_bits();
        assert_eq!(check_nan(p), a.is_nan());
        assert_eq!(check_finite(p), a.is_finite());
        assert_eq!(check_zero(p), a == 0.0);
        assert_eq!(check_integral(p), a.fract() == 0.0);
        assert_eq!(to_i64(p), a as i64);
        assert_eq!(negate(p), (-a).to_bits());
        for b in samples {
            let q = b.to_bits();
            assert_eq!(lt(p, q), a < b);
            assert_eq!(le(p, q), a <= b);
            assert_eq!(eq(p, q), a == b);
            let same = |r: u64, x: f64| (f64::from_bits(r).is_nan() && x.is_nan()) || r == x.to_bits();
            assert!(same(get_sum(p, q), a + b));
            assert!(same(get_minus(p, q), a - b));
            assert!(same(get_product(p, q), a * b));
            assert!(same(get_quotient(p, q), a / b));
        }
    }
}
