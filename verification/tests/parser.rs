use expr_minimizer::arena::{Interner, Op};
use expr_minimizer::complex::Complex64;
use expr_minimizer::fingerprint::sample_bytes;
use expr_minimizer::parser::{make_literal, parse};
use expr_minimizer::plan::{run_plan, Step};

type Pair = num_complex::Complex64;

fn c(re: f64, im: f64) -> Complex64 {
    Complex64::new(re.to_bits(), im.to_bits())
}

fn lift(z: Complex64) -> Pair {
    Pair::new(f64::from_bits(z.re), f64::from_bits(z.im))
}

fn eval(plan: &Vec<Step>, x: Complex64) -> Complex64 {
    let z = run_plan(plan, x, &lift, &|a: &Pair, b: &Pair| a.exp() - b.ln());
    c(z.re, z.im)
}

#[test]
fn parses_var_and_const() {
    let mut it = Interner::new();
    let x = parse(&mut it, "x").unwrap();
    assert_eq!(it.node(x).op, Op::Var);

    let mut it = Interner::new();
    let k = parse(&mut it, "1").unwrap();
    assert_eq!(it.node(k).const_val, Some(c(1.0, 0.0)));
}

#[test]
fn parses_complex_literals() {
    let mut it = Interner::new();
    let k = parse(&mut it, "1+2i").unwrap();
    assert_eq!(it.node(k).const_val, Some(c(1.0, 2.0)));

    let mut it = Interner::new();
    let k = parse(&mut it, "-3.5-0.25i").unwrap();
    assert_eq!(it.node(k).const_val, Some(c(-3.5, -0.25)));

    let mut it = Interner::new();
    let k = parse(&mut it, "2i").unwrap();
    assert_eq!(it.node(k).const_val, Some(c(0.0, 2.0)));
}

#[test]
fn parses_named_constants() {
    let mut it = Interner::new();
    let k = parse(&mut it, "i").unwrap();
    assert_eq!(it.node(k).const_val, Some(c(0.0, 1.0)));

    let mut it = Interner::new();
    let k = parse(&mut it, "pi").unwrap();
    assert_eq!(it.node(k).const_val, Some(c(std::f64::consts::PI, 0.0)));
}

#[test]
fn parses_nested_prim_calls_both_spellings() {
    let mut it = Interner::new();
    let a = parse(&mut it, "f(f(x, 1), 1)").unwrap();
    assert_eq!(it.node(a).op, Op::Prim);

    let mut it2 = Interner::new();
    let b = parse(&mut it2, "eml(eml(x,1),1)").unwrap();
    assert_eq!(
        sample_bytes(&it, a, &eval),
        sample_bytes(&it2, b, &eval),
        "f and eml must be synonyms"
    );
}

#[test]
fn rejects_malformed_input() {
    let mut it = Interner::new();
    assert!(parse(&mut it, "f(x, 1").is_err(), "missing close paren");
    assert!(parse(&mut it, "f(x 1)").is_err(), "missing comma");
    assert!(parse(&mut it, "y").is_err(), "unknown identifier");
    assert!(parse(&mut it, "f(x,1) extra").is_err(), "trailing garbage");
}

#[test]
fn matches_manual_construction() {
    let mut it_manual = Interner::new();
    let x = it_manual.intern_var();
    let k = it_manual.intern_const(c(1.0, 0.0));
    let manual_root = it_manual.intern_prim(x, k);

    let mut it_parsed = Interner::new();
    let parsed_root = parse(&mut it_parsed, "f(x, 1)").unwrap();

    assert_eq!(
        sample_bytes(&it_manual, manual_root, &eval),
        sample_bytes(&it_parsed, parsed_root, &eval)
    );
}

fn message_of(src: &str) -> (String, usize) {
    let mut it = Interner::new();
    let e = parse(&mut it, src).unwrap_err();
    (e.message.clone(), e.pos)
}

#[test]
fn errors_say_what_and_where() {
    assert_eq!(message_of(""), ("unexpected end of input".to_string(), 0));
    assert_eq!(message_of("f(x, 1"), ("expected ')'".to_string(), 6));
    assert_eq!(message_of("f(x 1)"), ("expected ','".to_string(), 4));
    assert_eq!(message_of("f x"), ("expected '('".to_string(), 2));
    assert_eq!(message_of("  ?"), ("unexpected character '?'".to_string(), 2));
    assert_eq!(
        message_of(" y"),
        (
            "unknown identifier 'y' (expected x, i, pi, e, or f(...)/eml(...))".to_string(),
            1
        )
    );
    assert_eq!(
        message_of("f(x,1) extra"),
        ("trailing input after a complete expression".to_string(), 7)
    );
    assert_eq!(message_of("-x"), ("expected a number".to_string(), 1));
    assert_eq!(message_of("."), ("invalid numeric literal".to_string(), 1));
    assert_eq!(message_of(".5"), ("invalid numeric literal".to_string(), 2));
    assert_eq!(message_of("-5."), ("invalid numeric literal".to_string(), 3));
    assert_eq!(message_of("1+.5i"), ("invalid numeric literal".to_string(), 4));
    assert_eq!(message_of("f(x, foo)").1, 5);
    assert_eq!(
        message_of("1+2"),
        ("expected 'i' suffix on the second term of a complex literal".to_string(), 3)
    );
    let mut it = Interner::new();
    let e = parse(&mut it, "f(x 1)").unwrap_err();
    assert_eq!(e.to_text(), "parse error at byte 4: expected ','");
}

#[test]
fn blanks_and_capitals_are_accepted() {
    let mut it = Interner::new();
    let a = parse(&mut it, "  EML ( X ,\t1 - 0.5I )\n").unwrap();
    let n = *it.node(a);
    assert_eq!(it.node(n.a).op, Op::Var);
    assert_eq!(it.node(n.b).const_val, Some(c(1.0, -0.5)));
    let d = parse(&mut it, "1+-2i").unwrap();
    assert_eq!(it.node(d).const_val, Some(c(1.0, -2.0)));
    let e = parse(&mut it, "E").unwrap();
    assert_eq!(it.node(e).const_val, Some(c(std::f64::consts::E, 0.0)));
}

#[test]
fn names_outside_ascii_are_read_whole() {
    assert_eq!(
        message_of("\u{3b1}\u{3b2}2_"),
        (
            "unknown identifier '\u{3b1}\u{3b2}2_' (expected x, i, pi, e, or f(...)/eml(...))"
                .to_string(),
            0
        )
    );
    assert_eq!(message_of("\u{2260}"), ("unexpected character '\u{2260}'".to_string(), 0));
}

#[test]
fn literals_are_put_together() {
    assert_eq!(make_literal(1.0f64.to_bits(), false, None), c(1.0, 0.0));
    assert_eq!(make_literal(1.0f64.to_bits(), true, None), c(0.0, 1.0));
    assert_eq!(
        make_literal(1.0f64.to_bits(), false, Some((true, 2.0f64.to_bits()))),
        c(1.0, -2.0)
    );
    assert_eq!(
        make_literal(1.0f64.to_bits(), false, Some((false, 2.0f64.to_bits()))),
        c(1.0, 2.0)
    );
}

#[test]
fn parsing_adds_to_what_is_there() {
    let mut it = Interner::new();
    let a = parse(&mut it, "f(x, 1)").unwrap();
    let n = it.len();
    let b = parse(&mut it, "f(f(x,1), 1)").unwrap();
    assert_eq!(it.len(), n + 1);
    assert_eq!(it.node(b).a, a);
}

#[test]
fn what_was_read_before_an_error_stays() {
    let left = |src: &str| {
        let mut it = Interner::new();
        assert!(parse(&mut it, src).is_err());
        it.len()
    };
    assert_eq!(left("f(x 1)"), 1);
    assert_eq!(left("f(x, y)"), 1);
    assert_eq!(left("f(f(x, 1), 2"), 4);
    assert_eq!(left("f(x, 1) extra"), 3);
    assert_eq!(left("1+2"), 0);
}
