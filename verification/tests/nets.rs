//! Priorities of redexes and the cycles of a dependency graph.

use bend::hvm::add_recursive_priority::{add_recursive_priority, cycles, DepGraph};
use bend::hvm::ast::{Book, Net, Tree};
use bend::name::Name;
use bend::name_map::{NameMap, NameSet};

fn set(items: &[&str]) -> NameSet {
    let mut r = NameSet::new();
    for item in items {
        r.insert(Name::new(item.to_string()));
    }
    r
}

fn graph(edges: &[(&str, &[&str])]) -> DepGraph {
    let mut r: DepGraph = NameMap::new();
    for (name, deps) in edges {
        r.insert(Name::new(name.to_string()), set(deps));
    }
    r
}

fn strings(items: &[&str]) -> Vec<String> {
    items.iter().map(|x| x.to_string()).collect()
}

fn reference(nam: &str) -> Tree {
    Tree::Ref { nam: nam.to_string() }
}

fn var(nam: &str) -> Tree {
    Tree::Var { nam: nam.to_string() }
}

fn con(fst: Tree, snd: Tree) -> Tree {
    Tree::Con { fst: Box::new(fst), snd: Box::new(snd) }
}

fn net(root: Tree, rbag: Vec<(bool, Tree, Tree)>) -> Net {
    Net { root, rbag }
}

fn book(nets: Vec<(&str, Net)>) -> Book {
    let mut defs = NameMap::new();
    for (name, net) in nets {
        defs.insert(Name::new(name.to_string()), net);
    }
    Book { defs }
}

fn priorities(book: &Book, name: &str) -> Vec<bool> {
    let net = book.defs.get(&Name::new(name.to_string())).unwrap();
    net.rbag.iter().map(|r| r.0).collect()
}

#[test]
fn cycles_returns_full_branching_scc() {
    let deps = graph(&[
        ("A", &["B", "C"]),
        ("B", &["A"]),
        ("C", &["A"]),
        ("D", &["E"]),
        ("E", &[]),
    ]);

    assert_eq!(cycles(&deps), vec![vec!["A".to_string(), "B".to_string(), "C".to_string()]]);
}

#[test]
fn cycles_keeps_self_edges() {
    let deps = graph(&[("A", &["A"]), ("B", &[])]);

    assert_eq!(cycles(&deps), vec![vec!["A".to_string()]]);
}

#[test]
fn cycles_of_an_empty_graph() {
    assert_eq!(cycles(&graph(&[])), Vec::<Vec<String>>::new());
}

#[test]
fn cycles_come_in_the_order_of_their_first_names() {
    let deps = graph(&[
        ("Z", &["B"]),
        ("B", &["Z", "C"]),
        ("C", &["A"]),
        ("A", &["C"]),
        ("M", &["M", "A"]),
        ("N", &["M"]),
    ]);

    assert_eq!(
        cycles(&deps),
        vec![strings(&["A", "C"]), strings(&["B", "Z"]), strings(&["M"])]
    );
}

#[test]
fn cycles_follow_names_without_an_entry() {
    let deps = graph(&[("A", &["X", "B"]), ("B", &["Y", "A"])]);

    assert_eq!(cycles(&deps), vec![strings(&["A", "B"])]);
}

#[test]
fn cycles_of_nested_loops_are_one_component() {
    let deps = graph(&[("A", &["B"]), ("B", &["C"]), ("C", &["B", "A"]), ("D", &["C", "D"])]);

    assert_eq!(cycles(&deps), vec![strings(&["A", "B", "C"]), strings(&["D"])]);
}

#[test]
fn priority_goes_to_repeated_recursive_references() {
    let mut b = book(vec![(
        "F",
        net(
            var("r"),
            vec![
                (false, reference("F"), con(var("a"), var("b"))),
                (false, reference("G"), con(var("a"), var("c"))),
                (false, con(var("b"), var("c")), reference("F")),
            ],
        ),
    )]);
    add_recursive_priority(&mut b);
    assert_eq!(priorities(&b, "F"), vec![true, false, true]);
}

#[test]
fn priority_needs_a_repeated_reference() {
    let mut b = book(vec![(
        "F",
        net(reference("F"), vec![(false, reference("F"), var("a")), (false, var("a"), Tree::Era)]),
    )]);
    add_recursive_priority(&mut b);
    assert_eq!(priorities(&b, "F"), vec![false, false]);
}

#[test]
fn priority_counts_both_sides_of_a_redex() {
    let mut b = book(vec![("F", net(var("r"), vec![(false, reference("F"), reference("F"))]))]);
    add_recursive_priority(&mut b);
    assert_eq!(priorities(&b, "F"), vec![true]);
}

#[test]
fn priority_needs_recursion() {
    let mut b = book(vec![
        ("F", net(var("r"), vec![(false, reference("G"), var("a")), (false, reference("G"), var("b"))])),
        ("G", net(Tree::Num { val: 3 }, vec![])),
    ]);
    add_recursive_priority(&mut b);
    assert_eq!(priorities(&b, "F"), vec![false, false]);
    assert_eq!(b.defs.get(&Name::new("G".to_string())).unwrap().root, Tree::Num { val: 3 });
}

#[test]
fn priority_follows_components_and_all_parts_of_trees() {
    // The way back from G to F is a reference deep in the root of G.
    let back = Tree::Dup {
        fst: Box::new(Tree::Opr { fst: Box::new(var("a")), snd: Box::new(Tree::Era) }),
        snd: Box::new(Tree::Swi { fst: Box::new(con(reference("F"), var("a"))), snd: Box::new(Tree::Era) }),
    };
    let mut b = book(vec![
        (
            "F",
            net(
                var("r"),
                vec![
                    (false, reference("G"), var("a")),
                    (true, reference("H"), var("b")),
                    (false, reference("G"), var("b")),
                ],
            ),
        ),
        ("G", net(back, vec![(false, reference("G"), var("c"))])),
        ("H", net(Tree::Era, vec![])),
    ]);
    add_recursive_priority(&mut b);
    assert_eq!(priorities(&b, "F"), vec![true, true, true]);
    assert_eq!(priorities(&b, "G"), vec![false]);
}

#[test]
fn priority_changes_nothing_the_second_time() {
    let make = || {
        book(vec![
            (
                "A",
                net(
                    reference("B"),
                    vec![
                        (false, reference("B"), var("a")),
                        (false, reference("B"), var("b")),
                        (false, reference("A"), var("c")),
                    ],
                ),
            ),
            ("B", net(var("x"), vec![(false, var("x"), reference("A"))])),
        ])
    };
    let mut once = make();
    add_recursive_priority(&mut once);
    let mut twice = make();
    add_recursive_priority(&mut twice);
    add_recursive_priority(&mut twice);
    for name in ["A", "B"] {
        let n = Name::new(name.to_string());
        assert_eq!(once.defs.get(&n), twice.defs.get(&n));
    }
    assert_eq!(priorities(&once, "A"), vec![true, true, false]);
    assert_eq!(priorities(&once, "B"), vec![false]);
}
