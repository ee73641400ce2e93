use rustc_hash::FxHashMap;

use expr_minimizer::arena::Interner;
use expr_minimizer::catalog::{
    constant_catalog, eval_numerical_direct, export_constant_catalog, format_catalog,
    interpret_symbolic, is_constant_node, to_eml_string, try_interpret_symbolic, CatalogEntry,
};
use expr_minimizer::complex::Complex64;
use expr_minimizer::curve::eml_stats;
use expr_minimizer::expr::Expr;
use expr_minimizer::parser::parse;
use expr_minimizer::render::{format_expressions, print_tree, to_expr_string};
use expr_minimizer::stochastic::op_count;
use expr_minimizer::subtree::parse_eml;
use expr_minimizer::symbolic::{reduce_fixed_point, simplify_pass, SymbolicExpr};

fn c(re: f64, im: f64) -> Complex64 {
    Complex64::new(re.to_bits(), im.to_bits())
}

fn b(e: SymbolicExpr) -> Box<SymbolicExpr> {
    Box::new(e)
}

#[test]
fn constants_are_told_from_the_rest() {
    let mut it = Interner::new();
    let root = parse(&mut it, "f(f(1, 2), x)").unwrap();
    let left = it.node(root).a;
    let mut memo = FxHashMap::default();
    assert!(!is_constant_node(&it, root, &mut memo));
    assert!(is_constant_node(&it, left, &mut memo));
    assert_eq!(memo.len(), 5);
    let mut told = FxHashMap::default();
    told.insert(it.node(root).b, true);
    assert!(is_constant_node(&it, root, &mut told));
}

#[test]
fn values_are_computed_and_remembered() {
    let mut it = Interner::new();
    let root = parse(&mut it, "f(f(0, 1), 1)").unwrap();
    let mut memo = FxHashMap::default();
    let v = eval_numerical_direct(&it, root, &mut memo);
    assert!((f64::from_bits(v.re) - std::f64::consts::E).abs() < 1e-15);
    assert_eq!(memo.get(&root), Some(&v));
    assert_eq!(memo.len(), 4);
    let mut told = FxHashMap::default();
    told.insert(it.node(root).a, c(0.0, 0.0));
    let w = eval_numerical_direct(&it, root, &mut told);
    assert_eq!(f64::from_bits(w.re), 1.0);
}

#[test]
fn symbols_are_simplified() {
    let mut it = Interner::new();
    let root = parse(&mut it, "f(f(0, 1), 1)").unwrap();
    let mut memo = FxHashMap::default();
    assert_eq!(interpret_symbolic(&it, root, &mut memo).format_clean(), "e");
    let minus = parse(&mut it, "f(0, -1)").unwrap();
    let mut memo = FxHashMap::default();
    assert_eq!(interpret_symbolic(&it, minus, &mut memo).format_clean(), "1 - (i * pi)");
    let mut memo = FxHashMap::default();
    let x = parse(&mut it, "f(x, 1)").unwrap();
    assert!(try_interpret_symbolic(&it, x, &mut memo).is_none());
    let half = parse(&mut it, "0.5").unwrap();
    let mut memo = FxHashMap::default();
    assert_eq!(interpret_symbolic(&it, half, &mut memo).format_clean(), "0.5000");
    let z = parse(&mut it, "1+2i").unwrap();
    let mut memo = FxHashMap::default();
    assert_eq!(interpret_symbolic(&it, z, &mut memo).format_clean(), "1.0000 + 2.0000i");
}

#[test]
fn whole_numbers_out_of_range_have_no_symbol() {
    let sum = SymbolicExpr::Add(b(SymbolicExpr::Num(i64::MAX)), b(SymbolicExpr::Num(1)));
    assert!(simplify_pass(sum).is_none());
    let product = SymbolicExpr::Mul(b(SymbolicExpr::Num(i64::MAX)), b(SymbolicExpr::Num(2)));
    assert!(reduce_fixed_point(product).is_none());
    let fine = SymbolicExpr::Add(b(SymbolicExpr::Num(i64::MAX)), b(SymbolicExpr::Num(0)));
    assert_eq!(simplify_pass(fine).unwrap().format_clean(), "9223372036854775807");
}

#[test]
fn rules_of_simplification() {
    let num = |n: i64| SymbolicExpr::Num(n);
    let simple = |e: SymbolicExpr| reduce_fixed_point(e).unwrap().format_clean();
    let i_pi = || SymbolicExpr::Mul(b(SymbolicExpr::I), b(SymbolicExpr::Pi));
    assert_eq!(simple(SymbolicExpr::Ln(b(num(1)))), "0");
    assert_eq!(simple(SymbolicExpr::Ln(b(num(-1)))), "i * pi");
    assert_eq!(simple(SymbolicExpr::Ln(b(num(0)))), "-inf");
    assert_eq!(simple(SymbolicExpr::Ln(b(SymbolicExpr::E))), "1");
    assert_eq!(simple(SymbolicExpr::Ln(b(SymbolicExpr::I))), "(i * pi)/2");
    assert_eq!(simple(SymbolicExpr::Exp(b(num(0)))), "1");
    assert_eq!(simple(SymbolicExpr::Exp(b(num(1)))), "e");
    assert_eq!(simple(SymbolicExpr::Exp(b(i_pi()))), "-1");
    assert_eq!(simple(SymbolicExpr::Exp(b(SymbolicExpr::Div(b(i_pi()), b(num(2)))))), "i");
    assert_eq!(simple(SymbolicExpr::Exp(b(SymbolicExpr::Ln(b(num(7)))))), "7");
    assert_eq!(simple(SymbolicExpr::Sub(b(SymbolicExpr::E), b(SymbolicExpr::E))), "0");
    assert_eq!(simple(SymbolicExpr::Sub(b(num(0)), b(SymbolicExpr::E))), "-e");
    assert_eq!(
        simple(SymbolicExpr::Sub(
            b(SymbolicExpr::E),
            b(SymbolicExpr::Sub(b(SymbolicExpr::E), b(num(3))))
        )),
        "3"
    );
    assert_eq!(simple(SymbolicExpr::Div(b(num(12)), b(num(-4)))), "-3");
    assert_eq!(simple(SymbolicExpr::Div(b(num(7)), b(num(2)))), "7/2");
    assert_eq!(simple(SymbolicExpr::Neg(b(SymbolicExpr::Neg(b(SymbolicExpr::Pi))))), "pi");
    assert_eq!(
        simple(SymbolicExpr::Add(b(SymbolicExpr::Neg(b(SymbolicExpr::Pi))), b(num(2)))),
        "2 - pi"
    );
}

#[test]
fn symbols_are_written_with_parentheses() {
    let e = SymbolicExpr::Mul(
        b(SymbolicExpr::Add(b(SymbolicExpr::Pi), b(SymbolicExpr::Num(2)))),
        b(SymbolicExpr::Neg(b(SymbolicExpr::Sub(b(SymbolicExpr::E), b(SymbolicExpr::I))))),
    );
    assert_eq!(e.format_clean(), "(pi + 2) * -(e - i)");
    assert_eq!(e.format_parenthesized(), "((pi + 2) * -(e - i))");
    let f = SymbolicExpr::Pow(b(SymbolicExpr::Num(2)), b(e));
    assert_eq!(f.format_clean(), "2^((pi + 2) * -(e - i))");
    assert_eq!(
        SymbolicExpr::Mul(b(SymbolicExpr::Num(-1)), b(SymbolicExpr::I)).format_clean(),
        "-i"
    );
    assert_eq!(SymbolicExpr::Mul(b(SymbolicExpr::I), b(SymbolicExpr::Num(4))).format_clean(), "4i");
    let z = || b(SymbolicExpr::Complex(c(1.0, 2.0)));
    let three = || b(SymbolicExpr::Num(3));
    assert_eq!(SymbolicExpr::Mul(z(), three()).format_clean(), "(1.0000 + 2.0000i) * 3");
    assert_eq!(SymbolicExpr::Neg(z()).format_clean(), "-(1.0000 + 2.0000i)");
    assert_eq!(SymbolicExpr::Sub(three(), z()).format_clean(), "3 - (1.0000 + 2.0000i)");
    assert_eq!(SymbolicExpr::Exp(z()).format_clean(), "e^(1.0000 + 2.0000i)");
    assert_eq!(
        SymbolicExpr::Pow(b(SymbolicExpr::Neg(b(SymbolicExpr::Pi))), z()).format_clean(),
        "(-pi)^(1.0000 + 2.0000i)"
    );
    let power = b(SymbolicExpr::Pow(b(SymbolicExpr::E), three()));
    assert_eq!(SymbolicExpr::Pow(power, three()).format_clean(), "(e^3)^3");
    assert_eq!(SymbolicExpr::Pow(b(SymbolicExpr::Num(-3)), three()).format_clean(), "(-3)^3");
    assert_eq!(SymbolicExpr::Complex(c(0.0, 2.5)).format_clean(), "2.5000i");
    assert_eq!(SymbolicExpr::Complex(c(2.5, 0.0)).format_clean(), "2.5000");
    assert_eq!(SymbolicExpr::Exp(b(SymbolicExpr::Inf(true))).format_clean(), "e^+inf");
}

#[test]
fn what_is_written_is_read_back() {
    for src in ["x", "0", "-7", "f(f(x, -2.5), f(1+2i, 3))"] {
        let mut it = Interner::new();
        let root = parse(&mut it, src).unwrap();
        let text = to_eml_string(&it, root);
        let mut other = Interner::new();
        let again = parse(&mut other, &text).unwrap();
        assert_eq!(to_eml_string(&other, again), text);
        assert_eq!(other.len(), it.len());
        let read = parse_eml(&text).unwrap();
        let (n, _, _) = eml_stats(&read);
        assert_eq!(n as u64, op_count(&it, root));
    }
    let mut it = Interner::new();
    let root = parse(&mut it, "0.1-1234.5678i").unwrap();
    let text = to_eml_string(&it, root);
    assert_eq!(text, "0.1+-1234.5678i");
    let mut other = Interner::new();
    let again = parse(&mut other, &text).unwrap();
    assert_eq!(other.node(again).const_val, Some(c(0.1, -1234.5678)));
    match parse_eml(&text).unwrap() {
        Expr::Const(v) => assert_eq!(v, c(0.1, -1234.5678)),
        _ => panic!("a constant"),
    }
}

#[test]
fn expressions_are_written_in_one_line() {
    let mut it = Interner::new();
    let root = parse(&mut it, "f(f(x, -2.5), f(1+2i, 3))").unwrap();
    assert_eq!(to_eml_string(&it, root), "eml(eml(x,-2.5),eml(1+2i,3))");
    assert_eq!(to_expr_string(&it, root), "eml(eml(x,-2.5),eml(1+2i,3))");
    let z = parse(&mut it, "1-2i").unwrap();
    assert_eq!(to_eml_string(&it, z), "1+-2i");
}

#[test]
fn catalog_lists_constant_parts_in_order() {
    let mut it = Interner::new();
    let root = parse(&mut it, "f(f(x, 1), f(0, 1))").unwrap();
    let entries = constant_catalog(&it, root).unwrap();
    let ids: Vec<u32> = entries.iter().map(|e| e.id).collect();
    let right = it.node(root).b;
    let (zero, one) = (it.node(right).a, it.node(right).b);
    let mut expected = vec![zero, one, right];
    expected.sort();
    assert_eq!(ids, expected);
    let last = entries.iter().find(|e| e.id == right).unwrap();
    assert_eq!(last.symbolic.format_clean(), "1");
    assert_eq!(f64::from_bits(last.numeric.re), 1.0);
    assert_eq!(last.eml, "eml(0,1)");
}

#[test]
fn catalog_text_has_its_layout() {
    let mut it = Interner::new();
    let root = parse(&mut it, "f(0, -1)").unwrap();
    let text = export_constant_catalog(&it, root).unwrap();
    let expected = "=========================================================\n          SYMBOLIC CONSTANT SUBTREES CATALOG             \n=========================================================\n\nid 0:\n  Symbolic Value  : 0\n  Numerical Value : 0.000000\n  EML Subtree     : 0\n\nid 1:\n  Symbolic Value  : -1\n  Numerical Value : -1.000000\n  EML Subtree     : -1\n\nid 2:\n  Symbolic Value  : 1 - (i * pi)\n  Numerical Value : 1.000000 + -3.141593i\n  EML Subtree     : eml(0,-1)\n\n";
    assert_eq!(text, expected);
}

#[test]
fn imaginary_numbers_are_listed_alone() {
    let entry = CatalogEntry {
        id: 12,
        symbolic: SymbolicExpr::I,
        numeric: c(1e-13, 2.0),
        eml: "i".to_string(),
    };
    let text = format_catalog(&vec![entry]);
    assert!(text.ends_with(
        "id 12:\n  Symbolic Value  : i\n  Numerical Value : 2.000000i\n  EML Subtree     : i\n\n"
    ));
}

#[test]
fn trees_are_printed_with_indices() {
    let mut it = Interner::new();
    let root = parse(&mut it, "f(x, 1+2i)").unwrap();
    assert_eq!(
        print_tree(&it, root, 0),
        "eml (id: 2)\n  x (id: 0)\n  Const(1+2i) (id: 1)\n"
    );
    assert_eq!(print_tree(&it, 0, 2), "    x (id: 0)\n");
    for (v, text) in [
        (c(-1.5, -2.0), "-1.5-2i"),
        (c(0.0, -0.5), "0-0.5i"),
        (c(-0.0, 3.0), "-0+3i"),
        (c(f64::NEG_INFINITY, 0.0), "-inf+0i"),
    ] {
        let mut it = Interner::new();
        let id = it.intern_const(v);
        assert_eq!(print_tree(&it, id, 0), format!("Const({}) (id: 0)\n", text));
    }
}

#[test]
fn expressions_file_shows_before_and_after() {
    assert_eq!(format_expressions("a", "b"), "ORIGINAL:\na\n\nMINIMIZED:\nb\n");
}

#[test]
fn whole_numbers_are_computed_exactly() {
    let num = |n: i64| SymbolicExpr::Num(n);
    let e = SymbolicExpr::Sub(
        b(SymbolicExpr::Mul(b(num(6)), b(SymbolicExpr::Add(b(num(-9)), b(num(2)))))),
        b(SymbolicExpr::Neg(b(num(50)))),
    );
    assert_eq!(reduce_fixed_point(e).unwrap().format_clean(), "8");
}
