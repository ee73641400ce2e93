use expr_minimizer::arena::Interner;
use expr_minimizer::catalog::{export_constant_catalog, format_catalog, CatalogEntry};
use expr_minimizer::complex::Complex64;
use expr_minimizer::listing::{
    find_max_id_in_catalog, load_catalog_entry, EntryError, MaxIdError,
};
use expr_minimizer::parser::parse;
use expr_minimizer::symbolic::SymbolicExpr;

#[test]
fn catalogs_are_read_back() {
    let mut it = Interner::new();
    let root = parse(&mut it, "f(f(0, -1), f(1, 1))").unwrap();
    let text = export_constant_catalog(&it, root).unwrap();
    assert_eq!(find_max_id_in_catalog(&text).unwrap(), root as usize);
    let inner = it.node(root).a as usize;
    assert_eq!(
        load_catalog_entry(&text, inner),
        Ok(("1 - (i * pi)".to_string(), "eml(0,-1)".to_string()))
    );
    assert_eq!(
        load_catalog_entry(&text, root as usize).unwrap().1,
        "eml(eml(0,-1),eml(1,1))".to_string()
    );
    assert_eq!(load_catalog_entry(&text, 99), Err(EntryError::NotFound));
}

#[test]
fn largest_id_is_found_anywhere() {
    let text = "id 3:\n a\n\n  id   17 :\n  id 12:   \nid 5: x\n";
    assert_eq!(find_max_id_in_catalog(text).unwrap(), 12);
    assert!(matches!(find_max_id_in_catalog("nothing"), Err(MaxIdError::NoIds)));
    assert!(matches!(find_max_id_in_catalog("id 4"), Err(MaxIdError::NoIds)));
    assert_eq!(find_max_id_in_catalog("x\n\t id\n 8:").unwrap(), 8);
}

#[test]
fn ids_that_are_no_numbers_are_reported() {
    match find_max_id_in_catalog("id 1:\nid 99999999999999999999999:\n") {
        Err(MaxIdError::BadId(digits)) => assert_eq!(digits, "99999999999999999999999"),
        _ => panic!("the id does not fit"),
    }
    match find_max_id_in_catalog("id \u{663}:\n") {
        Err(MaxIdError::BadId(digits)) => assert_eq!(digits, "\u{663}"),
        _ => panic!("the digit is of another script"),
    }
    assert!(matches!(find_max_id_in_catalog("id \u{e9}:\n"), Err(MaxIdError::NoIds)));
}

#[test]
fn entries_end_at_the_next_one() {
    let text = "id 1:\n  EML Subtree : a\n\nid 2:\n  Symbolic Value : s\n";
    assert_eq!(
        load_catalog_entry(text, 1),
        Ok(("<unknown>".to_string(), "a".to_string()))
    );
    assert_eq!(load_catalog_entry(text, 2), Err(EntryError::NoSubtree));
    assert_eq!(load_catalog_entry(" id 1:\nEML Subtree:a", 1), Err(EntryError::NotFound));
    assert_eq!(load_catalog_entry("id 11:\nEML Subtree:a", 1), Err(EntryError::NotFound));
}

#[test]
fn values_are_found_loosely() {
    let text = "id 7:\n> Symbolic Value is: here \n> EML Subtree\n";
    assert_eq!(load_catalog_entry(text, 7), Ok(("here".to_string(), "".to_string())));
    let next = "id 7:\nSymbolic Value :\n  Other : 5\nEML Subtree : \tq r\t\n";
    assert_eq!(
        load_catalog_entry(next, 7),
        Ok(("Other : 5".to_string(), "q r".to_string()))
    );
    let blank = "id 7:\nEML Subtree :  ";
    assert_eq!(
        load_catalog_entry(blank, 7),
        Ok(("<unknown>".to_string(), "".to_string()))
    );
}

#[test]
fn first_of_two_entries_is_read_back() {
    let entry = |id: u32, symbolic: SymbolicExpr, eml: &str| CatalogEntry {
        id,
        symbolic,
        numeric: Complex64::new(0, 0),
        eml: eml.to_string(),
    };
    let text = format_catalog(&vec![
        entry(30, SymbolicExpr::Pi, "eml(1, 2)"),
        entry(4, SymbolicExpr::E, "x"),
        entry(4, SymbolicExpr::I, "y"),
    ]);
    assert_eq!(load_catalog_entry(&text, 30), Ok(("pi".to_string(), "eml(1, 2)".to_string())));
    assert_eq!(load_catalog_entry(&text, 4), Ok(("e".to_string(), "x".to_string())));
    assert_eq!(load_catalog_entry(&text, 3), Err(EntryError::NotFound));
    assert_eq!(find_max_id_in_catalog(&text).unwrap(), 30);
    assert!(matches!(
        find_max_id_in_catalog(&format_catalog(&Vec::new())),
        Err(MaxIdError::NoIds)
    ));
}
