//! Types of functions, unification and annotations.

use bend::diagnostics::{DiagnosticOrigin, Diagnostics, Message, Severity};
use bend::fun::book::{Adt, AdtCtr, Book, Ctx, CtrField, HvmDefinition};
use bend::fun::check::infer_state::{InferState, TypeError, UnifyError};
use bend::fun::check::rec_groups::RecGroups;
use bend::fun::check::scheme::{Scheme, TypeEnv, VarGen};
use bend::fun::check::specialize::{specialize, MergeError, SpecializeError};
use bend::fun::check::type_check::{infer_book, infer_group};
use bend::fun::term::{
    Definition, FanKind, Num, Op, Pattern, Rule, Source, SourceKind, Tag, Term,
};
use bend::fun::ty::{Subst, Type};
use bend::hvm::ast::{Net, Tree};
use bend::name::Name;
use bend::name_map::NameMap;

fn name(x: &str) -> Name {
    Name::new(x.to_string())
}

fn tv(x: &str) -> Type {
    Type::Var(name(x))
}

fn arr(a: Type, b: Type) -> Type {
    Type::Arr(Box::new(a), Box::new(b))
}

fn number(a: Type) -> Type {
    Type::Number(Box::new(a))
}

fn integer(a: Type) -> Type {
    Type::Integer(Box::new(a))
}

fn ctr(x: &str, ts: Vec<Type>) -> Type {
    Type::Ctr(name(x), ts)
}

fn var(x: &str) -> Term {
    Term::Var { nam: name(x) }
}

fn reference(x: &str) -> Term {
    Term::Ref { nam: name(x) }
}

fn num(x: u32) -> Term {
    Term::Num { val: Num::U24(x) }
}

fn float() -> Term {
    Term::Num { val: Num::F24(0) }
}

fn signed(x: i32) -> Term {
    Term::Num { val: Num::I24(x) }
}

fn bind(x: &str) -> Pattern {
    Pattern::Var(Some(name(x)))
}

fn lam(x: &str, bod: Term) -> Term {
    Term::Lam { tag: Tag::Static, pat: Box::new(bind(x)), bod: Box::new(bod) }
}

fn app(fun: Term, arg: Term) -> Term {
    Term::App { tag: Tag::Static, fun: Box::new(fun), arg: Box::new(arg) }
}

fn tup(els: Vec<Term>) -> Term {
    Term::Fan { fan: FanKind::Tup, tag: Tag::Static, els }
}

fn let_pat(pat: Pattern, val: Term, nxt: Term) -> Term {
    Term::Let { pat: Box::new(pat), val: Box::new(val), nxt: Box::new(nxt) }
}

fn oper(opr: Op, fst: Term, snd: Term) -> Term {
    Term::Oper { opr, fst: Box::new(fst), snd: Box::new(snd) }
}

fn swt(arg: Term, pred: &str, zero: Term, succ: Term) -> Term {
    swt_arms(arg, pred, vec![zero, succ])
}

fn swt_arms(arg: Term, pred: &str, arms: Vec<Term>) -> Term {
    Term::Swt {
        bnd: None,
        arg: Box::new(arg),
        with_bnd: vec![],
        with_arg: vec![],
        pred: Some(name(pred)),
        arms,
    }
}

fn mat(arg: Term, arms: Vec<(&str, Vec<&str>, Term)>) -> Term {
    Term::Mat {
        bnd: None,
        arg: Box::new(arg),
        with_bnd: vec![],
        with_arg: vec![],
        arms: arms
            .into_iter()
            .map(|(c, vars, bod)| (Some(name(c)), vars.into_iter().map(|v| Some(name(v))).collect(), bod))
            .collect(),
    }
}

fn source() -> Source {
    Source { file: None, span: None, kind: SourceKind::User }
}

fn typed(x: &str, typ: Type, body: Term) -> Definition {
    Definition {
        name: name(x),
        typ,
        check: true,
        rules: vec![Rule { pats: vec![], body }],
        source: source(),
    }
}

fn def(x: &str, body: Term) -> Definition {
    typed(x, Type::Hole, body)
}

fn book(defs: Vec<Definition>) -> Book {
    let mut map = NameMap::new();
    for d in defs {
        map.insert(d.name.clone(), d);
    }
    Book {
        defs: map,
        hvm_defs: NameMap::new(),
        adts: NameMap::new(),
        ctrs: NameMap::new(),
        entrypoint: None,
    }
}

/// Adds the datatype of lists: `List(t)` is `List/Cons { head: t, ~tail: List(t) }` or `List/Nil`.
fn with_lists(mut b: Book) -> Book {
    let list = |t: Type| ctr("List", vec![t]);
    let mut ctrs = NameMap::new();
    ctrs.insert(
        name("List/Cons"),
        AdtCtr {
            name: name("List/Cons"),
            typ: arr(tv("t"), arr(list(tv("t")), list(tv("t")))),
            fields: vec![
                CtrField { nam: name("head"), rec: false, typ: tv("t") },
                CtrField { nam: name("tail"), rec: true, typ: list(tv("t")) },
            ],
        },
    );
    ctrs.insert(
        name("List/Nil"),
        AdtCtr { name: name("List/Nil"), typ: list(tv("t")), fields: vec![] },
    );
    b.adts.insert(name("List"), Adt { name: name("List"), vars: vec![name("t")], ctrs });
    b.ctrs.insert(name("List/Cons"), name("List"));
    b.ctrs.insert(name("List/Nil"), name("List"));
    b
}

fn check(b: &mut Book) -> Result<(), Diagnostics> {
    let mut ctx = Ctx { book: b, info: Diagnostics::empty() };
    ctx.type_check()
}

fn typ(b: &Book, x: &str) -> Type {
    b.defs.get(&name(x)).unwrap().typ.clone()
}

fn type_of(body: Term) -> Type {
    let mut b = book(vec![def("F", body)]);
    assert_eq!(check(&mut b), Ok(()));
    typ(&b, "F")
}

fn error_of(body: Term) -> TypeError {
    let mut b = book(vec![def("F", body)]);
    let mut ds = check(&mut b).unwrap_err();
    assert_eq!(ds.items.len(), 1);
    let d = ds.items.remove(0);
    assert_eq!(d.severity, Severity::Error);
    assert_eq!(d.origin, DiagnosticOrigin::Function(name("F")));
    assert_eq!(d.source, source());
    assert_eq!(typ(&b, "F"), Type::Hole);
    match d.message {
        Message::Type(e) => e,
        other => panic!("{:?}", other),
    }
}

#[test]
fn functions_are_polymorphic() {
    assert_eq!(type_of(lam("x", var("x"))), arr(tv("a"), tv("a")));
    assert_eq!(type_of(lam("x", lam("y", var("x")))), arr(tv("a"), arr(tv("b"), tv("a"))));
    let compose = lam("f", lam("g", lam("x", app(var("f"), app(var("g"), var("x"))))));
    assert_eq!(
        type_of(compose),
        arr(arr(tv("b"), tv("c")), arr(arr(tv("a"), tv("b")), arr(tv("a"), tv("c"))))
    );
}

#[test]
fn types_of_constants() {
    assert_eq!(type_of(num(1)), Type::U24);
    assert_eq!(type_of(signed(-1)), Type::I24);
    assert_eq!(type_of(float()), Type::F24);
    assert_eq!(type_of(Term::Era), Type::NoneType);
    assert_eq!(type_of(tup(vec![num(1), float()])), Type::Tup(vec![Type::U24, Type::F24]));
}

#[test]
fn variables_of_a_let_are_generalized() {
    let pair = tup(vec![app(var("i"), num(1)), app(var("i"), float())]);
    assert_eq!(
        type_of(let_pat(bind("i"), lam("x", var("x")), pair)),
        Type::Tup(vec![Type::U24, Type::F24])
    );
    // Those of the environment are not.
    let f = lam("z", let_pat(bind("i"), var("z"), tup(vec![var("i"), var("z")])));
    assert_eq!(type_of(f), arr(tv("a"), Type::Tup(vec![tv("a"), tv("a")])));
    // Variables of a lambda are not generalized.
    let pair = tup(vec![app(var("i"), num(1)), app(var("i"), float())]);
    let e = error_of(app(lam("i", pair), lam("x", var("x"))));
    assert_eq!(e.cause, UnifyError::Mismatch);
}

#[test]
fn tuples_and_duplications_are_taken_apart() {
    let swap = lam(
        "p",
        let_pat(
            Pattern::Fan(FanKind::Tup, Tag::Static, vec![bind("a"), bind("b")]),
            var("p"),
            tup(vec![var("b"), var("a")]),
        ),
    );
    assert_eq!(
        type_of(swap),
        arr(Type::Tup(vec![tv("a"), tv("b")]), Type::Tup(vec![tv("b"), tv("a")]))
    );
    let dup = lam(
        "p",
        let_pat(
            Pattern::Fan(FanKind::Dup, Tag::Auto, vec![bind("a"), bind("b")]),
            var("p"),
            oper(Op::AND, var("a"), app(lam("x", var("x")), var("b"))),
        ),
    );
    assert_eq!(type_of(dup), arr(integer(tv("a")), integer(tv("a"))));
}

#[test]
fn types_of_operations() {
    let f = |o: Op| type_of(lam("x", lam("y", oper(o, var("x"), var("y")))));
    let n = || number(tv("a"));
    let i = || integer(tv("a"));
    for o in [Op::ADD, Op::SUB, Op::MUL, Op::DIV] {
        assert_eq!(f(o), arr(n(), arr(n(), n())));
    }
    for o in [Op::EQ, Op::NEQ, Op::LT, Op::GT, Op::LE, Op::GE] {
        assert_eq!(f(o), arr(n(), arr(n(), Type::U24)));
    }
    for o in [Op::REM, Op::AND, Op::OR, Op::XOR, Op::SHL, Op::SHR] {
        assert_eq!(f(o), arr(i(), arr(i(), i())));
    }
    assert_eq!(f(Op::POW), arr(Type::F24, arr(Type::F24, Type::F24)));
    assert_eq!(type_of(oper(Op::ADD, num(1), num(2))), Type::U24);
    assert_eq!(type_of(oper(Op::LT, float(), float())), Type::U24);
    let e = error_of(oper(Op::ADD, num(1), float()));
    assert_eq!((e.left, e.right, e.cause), (Type::F24, Type::U24, UnifyError::Mismatch));
    let e = error_of(oper(Op::ADD, Term::Era, Term::Era));
    assert_eq!(e.left, Type::NoneType);
    assert_eq!(e.right, number(tv("b")));
}

#[test]
fn types_of_switches() {
    let pred = lam("n", swt(var("n"), "p", num(0), var("p")));
    assert_eq!(type_of(pred), arr(Type::U24, Type::U24));
    let e = error_of(swt(float(), "p", num(0), var("p")));
    assert_eq!((e.left, e.right), (Type::F24, Type::U24));
    assert_eq!(e.ctx, float());
    let e = error_of(swt(num(1), "p", float(), var("p")));
    assert_eq!((e.left, e.right), (Type::U24, Type::F24));
}

#[test]
fn last_arm_of_a_switch_has_the_predecessor() {
    let term = swt_arms(var("n"), "p", vec![num(0), num(1), num(2), var("p")]);
    assert_eq!(type_of(lam("n", term)), arr(Type::U24, Type::U24));
    // The predecessor is in scope in a lambda too.
    let term = swt_arms(var("n"), "p", vec![lam("x", var("x")), lam("x", num(1)), lam("x", var("p"))]);
    assert_eq!(type_of(lam("n", term)), arr(Type::U24, arr(Type::U24, Type::U24)));
}

#[test]
fn all_arms_of_a_switch_have_one_type() {
    let arms = |a: Term, b: Term, c: Term| swt_arms(num(0), "p", vec![a, b, c]);
    assert_eq!(type_of(arms(num(1), num(2), num(3))), Type::U24);
    let e = error_of(arms(num(1), num(2), signed(3)));
    assert_eq!((e.left, e.right), (Type::I24, Type::U24));
    let e = error_of(arms(num(1), signed(2), num(3)));
    assert_eq!((e.left, e.right), (Type::U24, Type::I24));
    let e = error_of(arms(signed(1), num(2), num(3)));
    assert_eq!((e.left, e.right), (Type::U24, Type::I24));
    assert_eq!(e.ctx, arms(signed(1), num(2), num(3)));
}

#[test]
fn types_of_matches() {
    let head = lam(
        "l",
        lam(
            "d",
            mat(var("l"), vec![("List/Cons", vec!["h", "t"], var("h")), ("List/Nil", vec![], var("d"))]),
        ),
    );
    let one = app(app(reference("List/Cons"), num(1)), reference("List/Nil"));
    let mut b = with_lists(book(vec![def("head", head), def("one", one)]));
    assert_eq!(check(&mut b), Ok(()));
    let list = |t: Type| ctr("List", vec![t]);
    assert_eq!(typ(&b, "head"), arr(list(tv("a")), arr(tv("a"), tv("a"))));
    assert_eq!(typ(&b, "one"), list(Type::U24));

    let sum = lam(
        "l",
        mat(
            var("l"),
            vec![
                ("List/Cons", vec!["h", "t"], oper(Op::ADD, var("h"), app(reference("sum"), var("t")))),
                ("List/Nil", vec![], num(0)),
            ],
        ),
    );
    let mut b = with_lists(book(vec![def("sum", sum)]));
    assert_eq!(check(&mut b), Ok(()));
    assert_eq!(typ(&b, "sum"), arr(list(number(Type::U24)), Type::U24));

    let bad = mat(num(1), vec![("List/Cons", vec!["h", "t"], num(1)), ("List/Nil", vec![], num(0))]);
    let mut b = with_lists(book(vec![def("bad", bad)]));
    let ds = check(&mut b).unwrap_err();
    match &ds.items[0].message {
        Message::Type(e) => {
            assert_eq!(e.ctx, num(1));
            assert_eq!(e.left, Type::U24);
            assert!(matches!(&e.right, Type::Ctr(n, _) if n.0 == "List"));
            assert_eq!(e.cause, UnifyError::Mismatch);
        }
        other => panic!("{:?}", other),
    }
}

#[test]
fn functions_that_call_each_other_are_inferred_together() {
    let even = lam("n", swt(var("n"), "p", num(1), app(reference("odd"), var("p"))));
    let odd = lam("n", swt(var("n"), "p", num(0), app(reference("even"), var("p"))));
    let twice = lam("f", lam("x", app(var("f"), app(var("f"), var("x")))));
    let four = app(app(reference("twice"), lam("x", oper(Op::ADD, var("x"), num(2)))), num(0));
    let mut b = book(vec![def("even", even), def("odd", odd), def("twice", twice), def("four", four)]);
    let groups = RecGroups::from_book(&b);
    let groups: Vec<Vec<String>> =
        groups.0.into_iter().map(|g| g.into_iter().map(|n| n.0).collect()).collect();
    assert_eq!(groups, vec![vec!["even", "odd"], vec!["twice"], vec!["four"]]);
    assert_eq!(check(&mut b), Ok(()));
    assert_eq!(typ(&b, "even"), arr(Type::U24, Type::U24));
    assert_eq!(typ(&b, "odd"), arr(Type::U24, Type::U24));
    assert_eq!(typ(&b, "twice"), arr(arr(tv("a"), tv("a")), arr(tv("a"), tv("a"))));
    assert_eq!(typ(&b, "four"), Type::U24);
}

#[test]
fn recursion_is_not_polymorphic() {
    let f = lam("x", let_pat(bind("u"), app(reference("F"), num(1)), app(reference("F"), float())));
    let e = error_of(f);
    assert_eq!(e.cause, UnifyError::Mismatch);
}

#[test]
fn self_application_has_no_type() {
    let e = error_of(lam("x", app(var("x"), var("x"))));
    assert_eq!(e.ctx, var("x"));
    assert_eq!(e.left, tv("b"));
    assert_eq!(e.right, arr(tv("b"), tv("c")));
    assert_eq!(e.cause, UnifyError::Occurs { var: name("b"), typ: arr(tv("b"), tv("c")) });
}

#[test]
fn body_has_to_fit_the_calls_of_its_function() {
    // F is called as a function inside its own body, which is a number.
    let mut b = book(vec![def("F", oper(Op::ADD, num(1), app(reference("F"), num(1))))]);
    let mut ds = check(&mut b).unwrap_err();
    assert_eq!(ds.items.len(), 1);
    let d = ds.items.remove(0);
    assert_eq!(d.origin, DiagnosticOrigin::Book);
    match d.message {
        Message::Type(e) => {
            assert_eq!(e.left, arr(Type::U24, Type::U24));
            assert_eq!(e.right, Type::U24);
        }
        other => panic!("{:?}", other),
    }
}

#[test]
fn annotations_make_types_less_general() {
    let mut b = book(vec![
        typed("F", arr(Type::U24, Type::U24), lam("x", var("x"))),
        typed("G", arr(tv("z"), arr(tv("w"), tv("z"))), lam("x", lam("y", var("x")))),
        typed("H", arr(Type::Any, Type::Hole), lam("x", var("x"))),
    ]);
    assert_eq!(check(&mut b), Ok(()));
    assert_eq!(typ(&b, "F"), arr(Type::U24, Type::U24));
    assert_eq!(typ(&b, "G"), arr(tv("b"), arr(tv("a"), tv("b"))));
    assert_eq!(typ(&b, "H"), arr(Type::Any, Type::Any));
}

#[test]
fn wrong_annotation_is_an_error() {
    let mut b = book(vec![typed("F", Type::F24, num(1))]);
    let ds = check(&mut b).unwrap_err();
    assert_eq!(
        ds.items[0].message,
        Message::Specialize(SpecializeError::Expected {
            ann: Type::F24,
            inf: Type::U24,
            cause: UnifyError::Mismatch,
        })
    );
    assert_eq!(ds.items[0].origin, DiagnosticOrigin::Function(name("F")));
}

#[test]
fn specialization() {
    assert_eq!(specialize(&arr(tv("x"), tv("x")), &Type::Hole), Ok(arr(tv("a"), tv("a"))));
    assert_eq!(
        specialize(&arr(tv("x"), tv("y")), &arr(Type::U24, Type::Hole)),
        Ok(arr(Type::U24, tv("b")))
    );
    assert_eq!(specialize(&Type::U24, &Type::Any), Ok(Type::Any));
    assert_eq!(specialize(&Type::Any, &Type::U24), Ok(Type::U24));
    // The annotation is more general than the inferred type.
    assert_eq!(
        specialize(&arr(Type::U24, Type::U24), &arr(tv("x"), tv("x"))),
        Err(SpecializeError::Subtype {
            ann: arr(tv("x"), tv("x")),
            inf: arr(Type::U24, Type::U24),
            cause: MergeError::Mismatch,
        })
    );
    assert_eq!(
        specialize(&arr(tv("x"), tv("x")), &arr(tv("x"), tv("y"))),
        Err(SpecializeError::Subtype {
            ann: arr(tv("x"), tv("y")),
            inf: arr(tv("a"), tv("a")),
            cause: MergeError::Both { var: name("a"), old_typ: tv("x"), new_typ: tv("y") },
        })
    );
    assert_eq!(
        specialize(&Type::U24, &Type::F24),
        Err(SpecializeError::Expected { ann: Type::F24, inf: Type::U24, cause: UnifyError::Mismatch })
    );
}

#[test]
fn names_in_annotations_do_not_matter() {
    let three = |a: &str, b: &str, c: &str| arr(tv(a), arr(tv(b), tv(c)));
    // The inferred variables are renamed to `a` and `b` first.
    assert_eq!(specialize(&three("x", "y", "x"), &three("b", "c", "b")), Ok(three("b", "c", "b")));
    assert_eq!(specialize(&three("x", "y", "x"), &three("b", "a", "b")), Ok(three("b", "a", "b")));
    assert_eq!(specialize(&three("x", "y", "z"), &three("b", "c", "a")), Ok(three("b", "c", "a")));
    assert_eq!(specialize(&three("x", "y", "z"), &three("c", "c", "a")), Ok(three("c", "c", "a")));
    // What fills a hole is not called like a variable of the annotation.
    let holes = arr(Type::Hole, arr(Type::Hole, tv("b")));
    assert_eq!(specialize(&three("x", "y", "x"), &holes), Ok(three("b", "d", "b")));
    let holes = arr(Type::Hole, arr(Type::Hole, tv("q")));
    assert_eq!(specialize(&three("x", "y", "x"), &holes), Ok(three("q", "b", "q")));
    // New names are not those of the annotation either.
    let holes = arr(Type::Hole, arr(tv("b"), tv("d")));
    assert_eq!(specialize(&three("x", "y", "z"), &holes), Ok(three("a", "b", "d")));
    let holes = arr(Type::Hole, arr(tv("a"), tv("f")));
    assert_eq!(specialize(&three("x", "y", "z"), &holes), Ok(three("g", "a", "f")));
    // The message speaks of the inferred variables.
    assert_eq!(
        specialize(&arr(tv("x"), tv("x")), &arr(tv("a"), tv("b"))),
        Err(SpecializeError::Subtype {
            ann: arr(tv("a"), tv("b")),
            inf: arr(tv("a"), tv("a")),
            cause: MergeError::Both { var: name("a"), old_typ: tv("a"), new_typ: tv("b") },
        })
    );
}

#[test]
fn given_types_are_used() {
    let mut unchecked = typed("U", arr(tv("q"), ctr("Box", vec![tv("q")])), Term::Era);
    unchecked.check = false;
    let mut b = book(vec![unchecked, def("F", tup(vec![app(reference("U"), num(1)), reference("N")]))]);
    b.hvm_defs.insert(
        name("N"),
        HvmDefinition {
            name: name("N"),
            typ: arr(tv("x"), Type::F24),
            body: Net { root: Tree::Era, rbag: vec![] },
            source: source(),
        },
    );
    assert_eq!(check(&mut b), Ok(()));
    assert_eq!(
        typ(&b, "F"),
        Type::Tup(vec![ctr("Box", vec![Type::U24]), arr(tv("a"), Type::F24)])
    );
    assert_eq!(typ(&b, "U"), arr(tv("a"), ctr("Box", vec![tv("a")])));
    assert_eq!(
        b.hvm_defs.get(&name("N")),
        Some(&HvmDefinition {
            name: name("N"),
            typ: arr(tv("x"), Type::F24),
            body: Net { root: Tree::Era, rbag: vec![] },
            source: source(),
        })
    );
}

#[test]
fn schemes_of_a_program() {
    let b = book(vec![def("F", lam("x", lam("y", var("y"))))]);
    let mut ds = Diagnostics::empty();
    let types = infer_book(&b, &mut ds).unwrap();
    let s = types.get(&name("F")).unwrap();
    assert_eq!(s.1, arr(tv("a"), arr(tv("b"), tv("b"))));
    assert_eq!(s.0, vec![name("a"), name("b")]);
    assert_eq!(ds, Diagnostics::empty());
}

#[test]
fn names_that_have_a_scheme() {
    let mut unchecked = typed("U", Type::Any, Term::Era);
    unchecked.check = false;
    let mut b = with_lists(book(vec![unchecked, def("F", num(1)), def("G", reference("U"))]));
    b.hvm_defs.insert(
        name("N"),
        HvmDefinition {
            name: name("N"),
            typ: Type::U24,
            body: Net { root: Tree::Era, rbag: vec![] },
            source: source(),
        },
    );
    let types = infer_book(&b, &mut Diagnostics::empty()).unwrap();
    let names: Vec<String> = types.keys().into_iter().map(|n| n.0).collect();
    assert_eq!(names, vec!["F", "G", "List/Cons", "List/Nil", "N", "U"]);
}

#[test]
fn environment_of_a_group_is_used_and_kept() {
    let b = book(vec![def("F", lam("y", tup(vec![var("x"), var("y")])))]);
    let mut env = TypeEnv::new();
    env.insert(name("x"), Scheme(vec![], Type::U24));
    let mut types = NameMap::new();
    let mut ds = Diagnostics::empty();
    assert_eq!(infer_group(&mut env, &b, &vec![name("F")], &mut types, &mut ds), Ok(()));
    assert_eq!(
        types.get(&name("F")).unwrap().1,
        arr(tv("a"), Type::Tup(vec![Type::U24, tv("a")]))
    );
    assert_eq!(env.0.keys(), vec![name("x")]);
    assert_eq!(env.0.get(&name("x")).unwrap().1, Type::U24);
}

#[test]
fn earlier_errors_stop_the_check() {
    let mut b = book(vec![def("F", num(1))]);
    let mut ctx = Ctx { book: &mut b, info: Diagnostics::empty() };
    ctx.info.add_function_error(
        Message::RecursionCycles("x".to_string()),
        name("G"),
        source(),
    );
    let ds = ctx.type_check().unwrap_err();
    assert_eq!(ds.items.len(), 1);
    assert_eq!(ctx.info, Diagnostics::empty());
    assert_eq!(typ(&b, "F"), Type::Hole);
}

#[test]
fn unification() {
    let mut s = InferState::new();
    let (a, b, c) = (s.fresh(), s.fresh(), s.fresh());
    assert_eq!((a.clone(), b.clone(), c.clone()), (tv("a"), tv("b"), tv("c")));
    // The variable on the right is bound first.
    assert_eq!(s.unify(&a, &b), Ok(tv("a")));
    assert_eq!(s.prune(&b), tv("a"));
    assert_eq!(s.unify(&arr(a.clone(), c.clone()), &arr(Type::U24, b.clone())), Ok(arr(Type::U24, Type::U24)));
    assert_eq!(s.prune(&Type::Tup(vec![a, b, c])), Type::Tup(vec![Type::U24, Type::U24, Type::U24]));
}

#[test]
fn unification_of_numbers() {
    let mut s = InferState::new();
    let (a, b) = (s.fresh(), s.fresh());
    assert_eq!(s.unify(&number(a.clone()), &integer(b.clone())), Ok(integer(tv("b"))));
    assert_eq!(s.unify(&number(a.clone()), &Type::I24), Ok(Type::I24));
    assert_eq!(s.prune(&b), Type::I24);
    assert_eq!(s.unify(&integer(b), &Type::F24), Err(UnifyError::Mismatch));
    assert_eq!(s.unify(&number(Type::U24), &number(Type::U24)), Ok(number(Type::U24)));
}

#[test]
fn unification_with_any_and_holes() {
    let mut s = InferState::new();
    let (a, b) = (s.fresh(), s.fresh());
    assert_eq!(s.unify(&Type::Hole, &Type::U24), Ok(Type::U24));
    assert_eq!(s.unify(&arr(a.clone(), Type::U24), &Type::Any), Ok(Type::Any));
    assert_eq!(s.prune(&a), Type::Any);
    assert_eq!(s.unify(&b, &Type::Any), Ok(Type::Any));
    let (c, d, e) = (s.fresh(), s.fresh(), s.fresh());
    let t = Type::Tup(vec![arr(c.clone(), Type::Hole), ctr("T", vec![d.clone()])]);
    assert_eq!(s.unify(&Type::Any, &t), Ok(Type::Any));
    assert_eq!(s.prune(&Type::Tup(vec![c, d, e])), Type::Tup(vec![Type::Any, Type::Any, tv("e")]));
    assert_eq!(s.unify(&ctr("T", vec![]), &ctr("U", vec![])), Err(UnifyError::Mismatch));
    assert_eq!(s.unify(&Type::Tup(vec![]), &Type::Tup(vec![Type::U24])), Err(UnifyError::Mismatch));
}

#[test]
fn occurrence_and_binding() {
    let mut s = InferState::new();
    let (a, b) = (s.fresh(), s.fresh());
    assert!(!s.occurs(&name("a"), &b));
    assert_eq!(s.bind_var(&name("b"), &arr(a.clone(), Type::U24)), Ok(arr(tv("a"), Type::U24)));
    assert!(s.occurs(&name("a"), &b));
    assert_eq!(s.bind_var(&name("a"), &tv("a")), Ok(tv("a")));
    assert_eq!(
        s.bind_var(&name("a"), &b),
        Err(UnifyError::Occurs { var: name("a"), typ: arr(tv("a"), Type::U24) })
    );
    assert_eq!(
        s.unify_term(&a, &b, &var("z")),
        Err(TypeError {
            ctx: var("z"),
            left: a,
            right: b,
            cause: UnifyError::Occurs { var: name("a"), typ: arr(tv("a"), Type::U24) },
        })
    );
}

#[test]
fn generalization_and_instances() {
    let mut s = InferState::new();
    let (a, b) = (s.fresh(), s.fresh());
    let mut env = TypeEnv::new();
    env.insert(name("x"), Scheme(vec![], a.clone()));
    let sch = s.generalize(&arr(a.clone(), b.clone()), &env);
    assert_eq!(sch.0, vec![name("b")]);
    assert_eq!(sch.1, arr(tv("a"), tv("b")));
    assert_eq!(s.instantiate(&sch), arr(tv("a"), tv("c")));
    let free = s.env_free_type_vars(&env);
    assert_eq!(free.to_vec(), vec![name("a")]);
    assert_eq!(s.scheme_free_type_vars(&sch).to_vec(), vec![name("a")]);
    s.unify(&a, &Type::U24).unwrap();
    assert_eq!(s.env_free_type_vars(&env).len(), 0);
    assert_eq!(s.instantiate(&sch), arr(Type::U24, tv("d")));
}

#[test]
fn bound_variables_that_are_replaced_are_not_followed() {
    let mut s = InferState::new();
    let (a, b, c) = (s.fresh(), s.fresh(), s.fresh());
    s.unify(&b, &a).unwrap();
    s.unify(&c, &b).unwrap();
    // `a` leads to `b`, which is bound.
    let sch = Scheme(vec![name("b")], arr(a.clone(), b.clone()));
    assert_eq!(s.scheme_free_type_vars(&sch).len(), 0);
    let mut env = TypeEnv::new();
    env.insert(name("x"), sch);
    assert_eq!(s.env_free_type_vars(&env).len(), 0);
    // Once `a` was followed to its end, it leads past `b`.
    let sch = s.generalize(&a, &env);
    assert_eq!((sch.0, sch.1), (vec![], tv("c")));
    assert_eq!(s.env_free_type_vars(&env).to_vec(), vec![name("c")]);
}

#[test]
fn closed_generalization_and_substitution() {
    let t = arr(tv("z"), Type::Tup(vec![tv("b"), tv("z"), ctr("T", vec![tv("c")])]));
    let s = t.generalize_closed();
    assert_eq!(s.0, vec![name("b"), name("c"), name("z")]);
    let mut gen = VarGen::new();
    gen.fresh();
    assert_eq!(
        s.instantiate(&mut gen),
        arr(tv("d"), Type::Tup(vec![tv("b"), tv("d"), ctr("T", vec![tv("c")])]))
    );
    assert_eq!(gen.fresh(), tv("e"));
    let mut m = NameMap::new();
    m.insert(name("z"), Type::Any);
    m.insert(name("b"), tv("z"));
    assert_eq!(
        t.subst(&Subst(m)),
        arr(Type::Any, Type::Tup(vec![tv("z"), Type::Any, ctr("T", vec![tv("c")])]))
    );
}

#[test]
fn names_of_new_variables() {
    let mut gen = VarGen::new();
    let names: Vec<String> = (0..29).map(|_| gen.fresh_name().0).collect();
    assert_eq!(names[0], "a");
    assert_eq!(names[25], "z");
    assert_eq!(names[26], "ab");
    assert_eq!(names[28], "cb");
}

#[test]
fn bindings_come_and_go() {
    let mut env = TypeEnv::new();
    env.insert(name("x"), Scheme(vec![], Type::U24));
    let old = env.add_binds(&vec![
        (Some(name("x")), Scheme(vec![], Type::F24)),
        (None, Scheme(vec![], Type::Any)),
        (Some(name("y")), Scheme(vec![], Type::I24)),
        (Some(name("x")), Scheme(vec![], Type::I24)),
    ]);
    assert_eq!(env.0.get(&name("x")).unwrap().1, Type::I24);
    assert_eq!(env.0.get(&name("y")).unwrap().1, Type::I24);
    assert_eq!(env.0.len(), 2);
    env.pop_binds(old);
    assert_eq!(env.0.get(&name("x")).unwrap().1, Type::U24);
    assert_eq!(env.0.len(), 1);
}
