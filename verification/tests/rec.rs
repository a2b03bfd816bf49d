use revent::rec::{ChainedError, Recursion, RecursionError};

#[test]
fn basic_recursion() {
    let mut rec = Recursion::default();
    rec.add("A", &["B", "C"]);
    rec.add("B", &["C"]);
    rec.add("D", &["C"]);
    assert!(rec.check().is_ok());
}

#[test]
fn self_recursion() {
    let mut rec = Recursion::default();
    rec.add("A", &["A"]);
    assert_eq!(Err(RecursionError { chain: vec!["A"] }), rec.check());
}

#[test]
fn simplest_transitive_recursion() {
    let mut rec = Recursion::default();
    rec.add("A", &["B"]);
    rec.add("B", &["A"]);
    assert_eq!(
        Err(RecursionError {
            chain: vec!["A", "B"]
        }),
        rec.check()
    );
}

#[test]
fn long_non_recursive_chain() {
    let mut rec = Recursion::default();
    rec.add("A", &["B"]);
    rec.add("B", &["C"]);
    rec.add("C", &["D"]);
    rec.add("D", &["E"]);
    rec.add("E", &["F"]);
    assert!(rec.check().is_ok());
}

#[test]
fn long_recursive_chain() {
    let mut rec = Recursion::default();
    rec.add("A", &["B"]);
    rec.add("B", &["C"]);
    rec.add("C", &["D"]);
    rec.add("D", &["E"]);
    rec.add("E", &["A"]);
    assert_eq!(
        Err(RecursionError {
            chain: vec!["A", "B", "C", "D", "E"]
        }),
        rec.check()
    );
}

#[test]
fn chained_subscriber() {
    let mut rec = Recursion::default();
    rec.add("A", &["B"]);
    rec.add("B", &["C"]);
    rec.add("C", &[]);
    rec.check().unwrap();
    assert_eq!(
        Err(ChainedError { from: "A", to: "C" }),
        rec.is_chained(&["A", "C"])
    );
    assert_eq!(Ok(()), rec.is_chained(&["A"]));
    assert_eq!(Ok(()), rec.is_chained(&["B"]));
    assert_eq!(Ok(()), rec.is_chained(&["C"]));
}

#[test]
fn errors_read_as_messages() {
    let mut rec = Recursion::default();
    rec.add("A", &["B"]);
    rec.add("B", &["A"]);
    assert_eq!(
        rec.check().unwrap_err().message(),
        "Recursion found [\"A\", \"B\"]"
    );
    assert_eq!(
        ChainedError { from: "A", to: "C" }.message(),
        "Subscriber chain found: A can call C"
    );
}

#[test]
fn parents_are_walked_in_ascending_order_and_children_as_added() {
    let mut rec = Recursion::default();
    rec.add("Z", &["Y"]);
    rec.add("Y", &["Z"]);
    rec.add("M", &["N", "M"]);
    rec.add("N", &["M"]);
    assert_eq!(Err(RecursionError { chain: vec!["M", "N"] }), rec.check());
    assert_eq!(rec.len(), 4);
    assert_eq!(rec.parent(0), "M");
    assert_eq!(rec.children_at(0), &vec!["N", "M"]);
}

#[test]
fn link_keeps_children_sorted_and_once() {
    let mut rec = Recursion::default();
    rec.link("p", "c");
    rec.link("p", "a");
    rec.link("p", "c");
    rec.link("p", "b");
    rec.link("o", "z");
    assert_eq!(rec.parent(0), "o");
    assert_eq!(rec.children_at(1), &vec!["a", "b", "c"]);
    assert!(rec.has_parent("p"));
    assert!(!rec.has_parent("a"));
    let copy = rec.duplicate();
    assert_eq!(copy.children_at(1), rec.children_at(1));
}
