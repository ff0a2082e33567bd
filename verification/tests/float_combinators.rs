//! Combinators that become definitions of their own.

use bend::fun::book::Book;
use bend::fun::term::{
    Definition, FanKind, Num, Op, Pattern, Rule, Source, SourceKind, Tag, Term,
};
use bend::fun::transform::float_combinators::FloatCombinatorsCtx;
use bend::fun::transform::safety::precompute_def_safety;
use bend::fun::ty::Type;
use bend::name::Name;
use bend::name_map::{NameMap, NameSet};

fn name(x: &str) -> Name {
    Name::new(x.to_string())
}

fn var(x: &str) -> Term {
    Term::Var { nam: name(x) }
}

fn link(x: &str) -> Term {
    Term::Link { nam: name(x) }
}

fn reference(x: &str) -> Term {
    Term::Ref { nam: name(x) }
}

fn num(x: u32) -> Term {
    Term::Num { val: Num::U24(x) }
}

fn bind(x: &str) -> Pattern {
    Pattern::Var(Some(name(x)))
}

fn lam_pat(pat: Pattern, bod: Term) -> Term {
    Term::Lam { tag: Tag::Static, pat: Box::new(pat), bod: Box::new(bod) }
}

fn lam(x: &str, bod: Term) -> Term {
    lam_pat(bind(x), bod)
}

fn app(fun: Term, arg: Term) -> Term {
    Term::App { tag: Tag::Static, fun: Box::new(fun), arg: Box::new(arg) }
}

fn tup(els: Vec<Term>) -> Term {
    Term::Fan { fan: FanKind::Tup, tag: Tag::Static, els }
}

fn add(fst: Term, snd: Term) -> Term {
    Term::Oper { opr: Op::ADD, fst: Box::new(fst), snd: Box::new(snd) }
}

fn user() -> Source {
    Source { file: Some("prog.bend".to_string()), span: None, kind: SourceKind::User }
}

fn def(x: &str, body: Term) -> Definition {
    Definition {
        name: name(x),
        typ: Type::Any,
        check: true,
        rules: vec![Rule { pats: vec![], body }],
        source: user(),
    }
}

fn book(defs: Vec<Definition>) -> Book {
    let mut map = NameMap::new();
    for d in defs {
        map.insert(d.name.clone(), d);
    }
    Book {
        defs: map,
        hvm_defs: NameMap::new(),
        adts: NameMap::new(),
        ctrs: NameMap::new(),
        entrypoint: None,
    }
}

fn body<'a>(b: &'a Book, x: &str) -> &'a Term {
    &b.defs.get(&name(x)).unwrap().rules[0].body
}

fn names(b: &Book) -> Vec<String> {
    b.defs.keys().into_iter().map(|n| n.0).collect()
}

fn id(x: &str) -> Term {
    lam(x, var(x))
}

#[test]
fn safe_combinator_is_extracted_from_a_large_term() {
    let mut b = book(vec![def("A", lam("x", app(var("x"), id("y"))))]);
    b.float_combinators(2);
    assert_eq!(names(&b), vec!["A", "A__C0"]);
    assert_eq!(*body(&b, "A"), lam("x", app(var("x"), reference("A__C0"))));
    assert_eq!(*body(&b, "A__C0"), id("y"));
}

#[test]
fn safe_combinator_stays_in_a_small_term() {
    let mut b = book(vec![def("A", lam("x", app(var("x"), id("y"))))]);
    b.float_combinators(3);
    assert_eq!(names(&b), vec!["A"]);
    assert_eq!(*body(&b, "A"), lam("x", app(var("x"), id("y"))));
}

#[test]
fn unsafe_combinator_is_always_extracted() {
    let unsafe_term = || lam("y", app(reference("R"), var("y")));
    let mut b = book(vec![def("A", lam("x", app(var("x"), unsafe_term()))), def("R", id("z"))]);
    b.float_combinators(64);
    assert_eq!(names(&b), vec!["A", "A__C0", "R"]);
    assert_eq!(*body(&b, "A"), lam("x", app(var("x"), reference("A__C0"))));
    assert_eq!(*body(&b, "A__C0"), unsafe_term());
}

#[test]
fn combinator_in_a_term_with_free_variables_is_always_extracted() {
    // The application of `x` is not a combinator, the lambda around it is one.
    let mut b = book(vec![def("f", lam("x", tup(vec![var("x"), app(var("x"), id("y"))])))]);
    b.float_combinators(usize::MAX);
    assert_eq!(names(&b), vec!["f", "f__C0"]);
    assert_eq!(*body(&b, "f"), lam("x", tup(vec![var("x"), app(var("x"), reference("f__C0"))])));
    assert_eq!(*body(&b, "f__C0"), id("y"));
    // Every one of them, but not the empty ones.
    let inner = || add(app(var("x"), id("y")), app(app(var("x"), id("z")), num(1)));
    let mut b = book(vec![def("A", lam("x", inner()))]);
    b.float_combinators(64);
    assert_eq!(
        *body(&b, "A"),
        lam(
            "x",
            add(
                app(var("x"), reference("A__C0")),
                app(app(var("x"), reference("A__C1")), num(1))
            )
        )
    );
}

#[test]
fn combinator_in_a_term_with_unmatched_unscoped_variables_is_always_extracted() {
    let declares = || lam_pat(Pattern::Chn(name("k")), num(0));
    let mut b = book(vec![def("A", tup(vec![app(link("k"), id("y")), declares()]))]);
    b.float_combinators(usize::MAX);
    assert_eq!(names(&b), vec!["A", "A__C0"]);
    assert_eq!(*body(&b, "A"), tup(vec![app(link("k"), reference("A__C0")), declares()]));
    assert_eq!(*body(&b, "A__C0"), id("y"));
}

#[test]
fn inner_combinators_are_extracted_first() {
    let mut b = book(vec![def("A", lam("x", app(var("x"), lam("a", app(var("a"), id("b"))))))]);
    b.float_combinators(0);
    assert_eq!(names(&b), vec!["A", "A__C0", "A__C1"]);
    assert_eq!(*body(&b, "A__C0"), id("b"));
    assert_eq!(*body(&b, "A__C1"), lam("a", app(var("a"), reference("A__C0"))));
    assert_eq!(*body(&b, "A"), lam("x", app(var("x"), reference("A__C1"))));
}

#[test]
fn extraction_stops_when_the_term_is_small_enough() {
    // Sizes: 2 for the tuple and 1 for each lambda.
    let mut b = book(vec![def("A", tup(vec![id("a"), id("b"), id("c")]))]);
    b.float_combinators(3);
    assert_eq!(*body(&b, "A"), tup(vec![reference("A__C0"), reference("A__C1"), id("c")]));
}

#[test]
fn numbers_begin_anew_with_each_definition() {
    let mut b = book(vec![
        def("A", lam("x", app(var("x"), id("y")))),
        def("B", lam("x", app(var("x"), id("z")))),
    ]);
    b.float_combinators(0);
    assert_eq!(names(&b), vec!["A", "A__C0", "B", "B__C0"]);
}

#[test]
fn entrypoint_is_left_alone() {
    let term = || lam("x", app(var("x"), id("y")));
    let mut b = book(vec![def("main", term()), def("B", term())]);
    b.entrypoint = Some(name("main"));
    b.float_combinators(0);
    assert_eq!(names(&b), vec!["B", "B__C0", "main"]);
    assert_eq!(*body(&b, "main"), term());
}

#[test]
fn references_and_numbers_are_not_extracted() {
    let term = || lam("x", app(app(var("x"), reference("B")), num(3)));
    let mut b = book(vec![def("A", term()), def("B", Term::Era)]);
    b.float_combinators(0);
    assert_eq!(names(&b), vec!["A", "B"]);
    assert_eq!(*body(&b, "A"), term());
}

#[test]
fn new_definitions_are_referred_to_once() {
    let inner = || lam("a", app(var("a"), id("b")));
    let mut b = book(vec![
        def("A", lam("x", app(app(var("x"), inner()), id("y")))),
        def("B", lam("x", app(var("x"), inner()))),
    ]);
    b.float_combinators(0);
    let all = names(&b);
    assert_eq!(all, vec!["A", "A__C0", "A__C1", "A__C2", "B", "B__C0", "B__C1"]);
    let bodies: Vec<String> = all.iter().map(|x| format!("{:?}", body(&b, x))).collect();
    for x in ["A__C0", "A__C1", "A__C2", "B__C0", "B__C1"] {
        assert_eq!(bodies.iter().map(|t| t.matches(x).count()).sum::<usize>(), 1);
    }
}

#[test]
fn new_definition_is_marked_as_generated() {
    let mut builtin = def("B", lam("x", app(var("x"), id("z"))));
    builtin.source.kind = SourceKind::Builtin;
    builtin.check = false;
    let mut b = book(vec![def("A", lam("x", app(var("x"), id("y")))), builtin]);
    b.float_combinators(0);
    assert_eq!(
        b.defs.get(&name("A__C0")),
        Some(&Definition {
            name: name("A__C0"),
            typ: Type::Hole,
            check: true,
            rules: vec![Rule { pats: vec![], body: id("y") }],
            source: Source { kind: SourceKind::Generated, ..user() },
        })
    );
    let c = b.defs.get(&name("B__C0")).unwrap();
    assert_eq!(c.source.kind, SourceKind::Builtin);
    assert!(!c.check);
    assert_eq!(b.defs.get(&name("A")).unwrap().typ, Type::Any);
}

fn stays(other: Vec<Definition>, ctrs: &[&str], closed: fn() -> Term) -> bool {
    let mut defs = other;
    defs.push(def("A", lam("x", app(var("x"), closed()))));
    let mut b = book(defs);
    for c in ctrs {
        b.ctrs.insert(name(c), name("T"));
    }
    b.float_combinators(64);
    *body(&b, "A") == lam("x", app(var("x"), closed()))
}

#[test]
fn safe_terms_stay_where_they_are() {
    // Constructors, and references to definitions that end.
    assert!(stays(vec![], &["T/C"], || app(reference("T/C"), num(1))));
    assert!(stays(vec![def("N", tup(vec![num(1), num(2)]))], &[], || tup(vec![reference("N"), num(2)])));
    // A lambda with a bound variable, a reference or a safe term as its body.
    assert!(stays(vec![], &[], || lam("a", lam("b", var("a")))));
    assert!(stays(vec![], &[], || lam("a", reference("Nowhere"))));
    assert!(stays(vec![], &[], || lam("a", add(num(1), num(2)))));
    // Also where the body is a reference to a definition that refers to itself.
    assert!(stays(vec![def("S", lam("a", reference("S")))], &[], || lam("b", reference("S"))));
}

#[test]
fn unsafe_terms_do_not_stay() {
    assert!(!stays(vec![], &[], || app(reference("T/C"), num(1))));
    assert!(!stays(vec![], &[], || lam("a", add(var("a"), num(2)))));
    // A definition that refers to itself, and two that refer to each other.
    assert!(!stays(vec![def("R", app(reference("R"), num(1)))], &[], || tup(vec![reference("R"), num(2)])));
    let pq = || {
        vec![
            def("P", tup(vec![reference("Q"), num(1)])),
            def("Q", tup(vec![reference("P"), num(1)])),
        ]
    };
    assert!(!stays(pq(), &[], || tup(vec![reference("P"), num(2)])));
    assert!(!stays(pq(), &[], || tup(vec![num(2), reference("Q")])));
    // Definitions that refer to themselves in the body of a lambda.
    assert!(!stays(vec![def("S", lam("a", reference("S")))], &[], || tup(vec![reference("S"), num(2)])));
    let uv = || vec![def("U", lam("a", reference("V"))), def("V", lam("a", lam("b", reference("U"))))];
    assert!(!stays(uv(), &[], || tup(vec![reference("U"), num(2)])));
    assert!(!stays(uv(), &[], || tup(vec![reference("V"), num(2)])));
    // The variable is free.
    assert!(stays(vec![], &[], || lam("a", app(var("x"), var("a")))));
}

#[test]
fn safety_of_definitions() {
    let mut b = book(vec![
        def("A", tup(vec![reference("B"), reference("C")])),
        def("B", num(1)),
        def("C", app(reference("T/K"), reference("B"))),
        def("D", tup(vec![reference("Gone"), reference("B")])),
        def("E", tup(vec![reference("F"), reference("B")])),
        def("F", tup(vec![reference("E"), reference("B")])),
        def("G", lam("x", reference("G"))),
        def("H", var("x")),
        def("I", lam("x", reference("J"))),
        def("J", lam("y", lam("z", reference("I")))),
        def("K", lam("x", reference("G"))),
        def("L", tup(vec![reference("K"), reference("T/K")])),
        def("T/K", lam("x", reference("L"))),
    ]);
    b.ctrs.insert(name("T/K"), name("T"));
    let safety = precompute_def_safety(&b);
    let expected = [
        ("A", true),
        ("B", true),
        ("C", true),
        ("D", false),
        ("E", false),
        ("F", false),
        ("G", false),
        ("Gone", false),
        ("H", false),
        ("I", false),
        ("J", false),
        ("K", true),
        ("L", true),
        ("T/K", true),
    ];
    assert_eq!(safety.len(), expected.len());
    for (x, safe) in expected {
        assert_eq!(safety.get(&name(x)), Some(&safe), "{}", x);
    }
}

#[test]
fn extracted_combinators_are_known_to_be_safe_or_not() {
    let mut ctx = FloatCombinatorsCtx::new(NameMap::new(), NameSet::new(), 7);
    assert!(!reference("A__C0").is_safe(&ctx));
    ctx.combinators.insert(name("A__C0"), (true, def("A__C0", num(1))));
    ctx.combinators.insert(name("A__C1"), (false, def("A__C1", num(1))));
    assert!(reference("A__C0").is_safe(&ctx));
    assert!(!reference("A__C1").is_safe(&ctx));
    ctx.def_safety.insert(name("A__C0"), false);
    assert!(!reference("A__C0").is_safe(&ctx));
    ctx.constructors.insert(name("A__C0"));
    assert!(reference("A__C0").is_safe(&ctx));
    assert!(var("x").is_safe_lambda(vec![None, Some(name("x"))], &ctx));
    assert!(!var("x").is_safe_lambda(vec![Some(name("y"))], &ctx));
    ctx.name_gen = 4;
    ctx.def_size = 9;
    ctx.reset();
    assert_eq!((ctx.name_gen, ctx.def_size, ctx.max_size), (0, 0, 7));
}

#[test]
fn sizes_of_terms() {
    let dup = Pattern::Fan(FanKind::Dup, Tag::Auto, vec![bind("a"), bind("b"), bind("c")]);
    let nested = Pattern::Fan(FanKind::Tup, Tag::Static, vec![bind("a"), dup]);
    assert_eq!(nested.size(), 3);
    let term = Term::Let { pat: Box::new(nested), val: Box::new(var("v")), nxt: Box::new(id("x")) };
    assert_eq!(term.base_size(), 3);
    assert_eq!(term.float_facts().size, 4);
    let swt = Term::Swt {
        bnd: None,
        arg: Box::new(num(0)),
        with_bnd: vec![Some(name("w"))],
        with_arg: vec![id("k")],
        pred: Some(name("p")),
        arms: vec![num(1), num(2), var("p")],
    };
    assert_eq!(swt.base_size(), 4);
    assert_eq!(swt.float_facts().size, 5);
    let mat = Term::Mat {
        bnd: None,
        arg: Box::new(num(0)),
        with_bnd: vec![],
        with_arg: vec![],
        arms: vec![(Some(name("T/A")), vec![], num(1)), (Some(name("T/B")), vec![None], num(2))],
    };
    assert_eq!(mat.float_facts().size, 2);
    assert_eq!(tup(vec![num(1), num(2), num(3)]).float_facts().size, 2);
    assert_eq!(app(id("x"), add(num(1), num(2))).float_facts().size, 3);
}

#[test]
fn facts_know_free_variables() {
    let term = lam("x", app(app(var("x"), var("y")), app(var("z"), var("y"))));
    let facts = term.float_facts();
    let mut free: Vec<(String, u64)> = facts.free_vars.iter().map(|(k, v)| (k.clone(), *v)).collect();
    free.sort();
    assert_eq!(free, vec![("y".to_string(), 1), ("z".to_string(), 1)]);
    assert!(!facts.is_combinator(&term));
    assert!(id("x").float_facts().is_combinator(&id("x")));
    assert!(!reference("F").float_facts().is_combinator(&reference("F")));
    // A name that is bound in one place can be free in another.
    let term = app(id("x"), var("x"));
    assert!(!term.float_facts().is_combinator(&term));
}

#[test]
fn unscoped_variables_have_to_match() {
    let chn = |x: &str| Pattern::Chn(name(x));
    assert!(!lam_pat(chn("a"), link("a")).has_unscoped_diff());
    assert!(lam_pat(chn("a"), num(1)).has_unscoped_diff());
    assert!(link("a").has_unscoped_diff());
    assert!(!num(1).has_unscoped_diff());
    let both = tup(vec![lam_pat(chn("a"), num(1)), lam_pat(chn("b"), link("a")), link("b")]);
    assert!(!both.has_unscoped_diff());
    let (declared, used) = both.unscoped_vars();
    assert_eq!(declared.into_iter().collect::<Vec<_>>(), vec!["a", "b"]);
    assert_eq!(used.into_iter().collect::<Vec<_>>(), vec!["a", "b"]);
    let nested = Pattern::Fan(FanKind::Tup, Tag::Static, vec![bind("x"), chn("a")]);
    let term = Term::Let { pat: Box::new(nested), val: Box::new(num(1)), nxt: Box::new(var("x")) };
    assert!(term.has_unscoped_diff());
    // A closed term with an unmatched unscoped variable stays where it is.
    let term = || lam("x", app(var("x"), lam_pat(Pattern::Chn(name("a")), num(1))));
    let mut b = book(vec![def("A", term())]);
    b.float_combinators(0);
    assert_eq!(*body(&b, "A"), term());
}

#[test]
fn children_that_combinators_are_floated_from() {
    let mut term = lam("x", app(app(var("f"), var("a")), var("b")));
    let kids: Vec<Term> = term.float_children_mut().into_iter().map(|k| k.clone()).collect();
    assert_eq!(kids, vec![var("b"), var("a"), var("f")]);
    for k in term.float_children_mut() {
        *k = num(1);
    }
    assert_eq!(term, lam("x", app(app(num(1), num(1)), num(1))));

    let mut mat = Term::Mat {
        bnd: None,
        arg: Box::new(var("a")),
        with_bnd: vec![None],
        with_arg: vec![var("w")],
        arms: vec![(Some(name("T/A")), vec![], var("b")), (None, vec![Some(name("c"))], var("c"))],
    };
    let kids: Vec<Term> = mat.float_children_mut().into_iter().map(|k| k.clone()).collect();
    assert_eq!(kids, vec![var("a"), var("w"), var("b"), var("c")]);
    *mat.float_children_mut().remove(3) = num(7);
    match &mat {
        Term::Mat { arms, .. } => {
            assert_eq!(arms[1], (None, vec![Some(name("c"))], num(7)));
            assert_eq!(arms[0], (Some(name("T/A")), vec![], var("b")));
        }
        _ => unreachable!(),
    }

    let mut list = Term::List { els: vec![num(1), num(2)] };
    *list.float_children_mut().remove(0) = num(3);
    assert_eq!(list, Term::List { els: vec![num(3), num(2)] });
    let mut swt = Term::Swt {
        bnd: None,
        arg: Box::new(var("a")),
        with_bnd: vec![],
        with_arg: vec![var("w")],
        pred: None,
        arms: vec![num(1), num(2)],
    };
    assert_eq!(swt.float_children_mut().len(), 4);
    let mut use_term = Term::Use { nam: Some(name("x")), val: Box::new(num(1)), nxt: Box::new(num(2)) };
    *use_term.float_children_mut().remove(1) = num(5);
    assert_eq!(use_term, Term::Use { nam: Some(name("x")), val: Box::new(num(1)), nxt: Box::new(num(5)) });
    assert_eq!(Term::Era.float_children_mut().len(), 0);
    assert_eq!(Term::Str { val: "s".to_string() }.float_children_mut().len(), 0);
}
