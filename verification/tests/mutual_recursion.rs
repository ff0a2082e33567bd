//! Cycles of active references and the warning about them.

use bend::diagnostics::{
    Diagnostic, DiagnosticOrigin, Diagnostics, DiagnosticsConfig, Message, Severity,
};
use bend::fun::term::{Source, SourceKind};
use bend::hvm::ast::{Book, Net, Tree};
use bend::hvm::cycle_text::{combinations_from_merges, show_cycles};
use bend::hvm::mutual_recursion::{check_cycles, Graph};
use bend::name::Name;
use bend::name_map::NameMap;

fn strings(items: &[&str]) -> Vec<String> {
    items.iter().map(|x| x.to_string()).collect()
}

fn graph(edges: &[(&str, &str)]) -> Graph {
    let mut g = Graph::new();
    for (x, y) in edges {
        g.add(x.to_string(), y.to_string());
    }
    g
}

fn deps(g: &Graph, x: &str) -> Option<Vec<String>> {
    g.get(&x.to_string()).map(|s| s.iter().cloned().collect())
}

fn reference(nam: &str) -> Tree {
    Tree::Ref { nam: nam.to_string() }
}

fn con(fst: Tree, snd: Tree) -> Tree {
    Tree::Con { fst: Box::new(fst), snd: Box::new(snd) }
}

fn book(nets: Vec<(&str, Tree, Vec<(bool, Tree, Tree)>)>) -> Book {
    let mut defs = NameMap::new();
    for (name, root, rbag) in nets {
        defs.insert(Name::new(name.to_string()), Net { root, rbag });
    }
    Book { defs }
}

fn diagnostics(severity: Severity) -> Diagnostics {
    Diagnostics::new(DiagnosticsConfig { recursion_cycle: severity })
}

#[test]
fn graph_keeps_the_order_of_what_is_added() {
    let g = graph(&[("F", "Z"), ("F", "A"), ("F", "Z"), ("A", "F")]);
    assert_eq!(deps(&g, "F"), Some(strings(&["Z", "A"])));
    assert_eq!(deps(&g, "A"), Some(strings(&["F"])));
    assert_eq!(deps(&g, "Z"), Some(vec![]));
    assert_eq!(deps(&g, "Q"), None);
}

#[test]
fn graph_of_a_book_holds_active_references() {
    let b = book(vec![
        ("A", con(reference("X"), con(Tree::Era, reference("B"))), vec![]),
        (
            "B",
            Tree::Dup { fst: Box::new(reference("C")), snd: Box::new(reference("A")) },
            vec![
                (false, reference("D"), con(reference("Y"), reference("Z"))),
                (true, Tree::Num { val: 1 }, reference("B")),
            ],
        ),
    ]);
    let g = Graph::from(&b);
    assert_eq!(deps(&g, "A"), Some(strings(&["B"])));
    assert_eq!(deps(&g, "B"), Some(strings(&["C", "A", "D", "B"])));
    assert_eq!(deps(&g, "D"), Some(vec![]));
    assert_eq!(deps(&g, "X"), None);
    assert_eq!(deps(&g, "Y"), None);
}

#[test]
fn no_cycles() {
    let g = graph(&[("A", "B"), ("B", "C"), ("A", "C")]);
    assert_eq!(g.cycles(), Vec::<Vec<String>>::new());
    assert_eq!(Graph::default().cycles(), Vec::<Vec<String>>::new());
}

#[test]
fn cycle_begins_with_the_function_that_came_first() {
    let g = graph(&[("D", "C"), ("C", "A"), ("A", "B"), ("B", "C")]);
    assert_eq!(g.cycles(), vec![strings(&["C", "A", "B"])]);
}

#[test]
fn cycle_takes_the_first_way_back() {
    // From A the way over B is tried first, and C comes back at once.
    let g = graph(&[("A", "B"), ("A", "C"), ("B", "C"), ("C", "A")]);
    assert_eq!(g.cycles(), vec![strings(&["A", "B", "C"])]);
    let g = graph(&[("A", "C"), ("A", "B"), ("B", "C"), ("C", "A")]);
    assert_eq!(g.cycles(), vec![strings(&["A", "C"])]);
}

#[test]
fn cycle_turns_back_where_there_is_no_way() {
    // C leads only to B, which is on the path.
    let g = graph(&[("A", "A"), ("A", "B"), ("B", "C"), ("C", "B"), ("B", "X"), ("B", "A")]);
    assert_eq!(g.cycles(), vec![strings(&["A", "B"])]);
}

#[test]
fn long_cycles_come_before_lone_functions() {
    let g = graph(&[("S", "S"), ("P", "Q"), ("T", "T"), ("Q", "P"), ("A", "B"), ("B", "A")]);
    assert_eq!(
        g.cycles(),
        vec![strings(&["P", "Q"]), strings(&["A", "B"]), strings(&["S"]), strings(&["T"])]
    );
}

#[test]
fn merged_definitions_stand_for_both() {
    assert_eq!(combinations_from_merges(&vec![]), vec![Vec::<String>::new()]);
    assert_eq!(
        combinations_from_merges(&strings(&["A", "B__M_C", "D"])),
        vec![strings(&["A", "B", "D"]), strings(&["A", "C", "D"])]
    );
    assert_eq!(
        combinations_from_merges(&strings(&["A__M_B__M_C", "D__M_E"])),
        vec![
            strings(&["A", "D"]),
            strings(&["A", "E"]),
            strings(&["B__M_C", "D"]),
            strings(&["B__M_C", "E"]),
        ]
    );
    assert_eq!(combinations_from_merges(&strings(&["__M", "M_"])), vec![strings(&["__M", "M_"])]);
}

#[test]
fn cycles_are_shown_as_lines() {
    assert_eq!(show_cycles(&vec![]), "");
    assert_eq!(show_cycles(&vec![strings(&["A", "B"])]), "  * A -> B -> A");
    assert_eq!(
        show_cycles(&vec![strings(&["A", "A__C0", "B"]), strings(&["F__M_G"])]),
        "  * A -> B -> A\n  * F -> F\n  * G -> G"
    );
    assert_eq!(show_cycles(&vec![strings(&["A__C1", "B"])]), "  * B -> A__C1");
}

#[test]
fn at_most_five_cycles_are_shown() {
    let many: Vec<Vec<String>> = ["A", "B", "C", "D", "E", "F", "G"].iter().map(|x| strings(&[x])).collect();
    assert_eq!(
        show_cycles(&many),
        "  * A -> A\n  * B -> B\n  * C -> C\n  * D -> D\n  * E -> E\n  and 2 other cycles..."
    );
    assert_eq!(
        show_cycles(&many[..5].to_vec()),
        "  * A -> A\n  * B -> B\n  * C -> C\n  * D -> D\n  * E -> E"
    );
    let merged: Vec<Vec<String>> = vec![strings(&["A__M_B", "C__M_D"]), strings(&["E__M_F"])];
    assert_eq!(
        show_cycles(&merged),
        "  * A -> C -> A\n  * A -> D -> A\n  * B -> C -> B\n  * B -> D -> B\n  * E -> E"
    );
}

#[test]
fn shown_texts_may_hold_any_characters() {
    assert_eq!(show_cycles(&vec![strings(&["Zażółć", "λ__M_μ"])]), "  * Zażółć -> λ -> Zażółć\n  * Zażółć -> μ -> Zażółć");
}

fn looping_book() -> Book {
    book(vec![("A", reference("B"), vec![]), ("B", Tree::Era, vec![(false, reference("A"), Tree::Era)])])
}

#[test]
fn check_fails_on_a_cycle_that_is_an_error() {
    let mut ds = diagnostics(Severity::Error);
    let err = check_cycles(&looping_book(), &mut ds).unwrap_err();
    assert_eq!(
        err.items,
        vec![Diagnostic {
            message: Message::RecursionCycles("  * A -> B -> A".to_string()),
            severity: Severity::Error,
            origin: DiagnosticOrigin::Book,
            source: Source { file: None, span: None, kind: SourceKind::Unknown },
        }]
    );
    assert_eq!(ds, Diagnostics::empty());
}

#[test]
fn check_keeps_a_cycle_that_is_a_warning() {
    for severity in [Severity::Warning, Severity::Allow] {
        let mut ds = diagnostics(severity);
        assert_eq!(check_cycles(&looping_book(), &mut ds), Ok(()));
        assert_eq!(ds.items.len(), 1);
        assert_eq!(ds.items[0].severity, severity);
        assert_eq!(ds.config.recursion_cycle, severity);
    }
}

#[test]
fn check_passes_without_cycles() {
    let b = book(vec![
        ("A", con(reference("A"), reference("B")), vec![]),
        ("B", con(reference("A"), Tree::Era), vec![]),
    ]);
    let mut ds = diagnostics(Severity::Error);
    assert_eq!(check_cycles(&b, &mut ds), Ok(()));
    assert_eq!(ds, diagnostics(Severity::Error));
}

#[test]
fn check_fails_on_an_earlier_error() {
    let mut ds = diagnostics(Severity::Warning);
    ds.add_function_error(
        Message::RecursionCycles("x".to_string()),
        Name::new("F".to_string()),
        Source { file: None, span: None, kind: SourceKind::User },
    );
    let err = check_cycles(&looping_book(), &mut ds).unwrap_err();
    assert_eq!(err.items.len(), 2);
    assert_eq!(err.items[0].origin, DiagnosticOrigin::Function(Name::new("F".to_string())));
    assert_eq!(err.items[1].severity, Severity::Warning);
    assert_eq!(ds, Diagnostics::empty());
}

#[test]
fn graph_entries_in_their_order() {
    let g = graph(&[("F", "Z"), ("A", "F"), ("F", "A")]);
    assert_eq!(
        g.entries(),
        vec![
            ("F".to_string(), strings(&["Z", "A"])),
            ("Z".to_string(), vec![]),
            ("A".to_string(), strings(&["F"])),
        ]
    );
}
