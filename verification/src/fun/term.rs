//! Terms and patterns.

use crate::fun::ty::{Ty, Type};
use crate::name;
use crate::name::{Name, Str};
use vstd::prelude::*;

verus! {

#[derive(Clone, Copy, Debug, PartialEq, Eq, Structural)]
pub enum FanKind {
    Tup,
    Dup,
}

#[derive(Clone, Copy, Debug, PartialEq, Eq, Structural)]
pub enum Op {
    ADD,
    SUB,
    MUL,
    DIV,
    REM,
    EQ,
    NEQ,
    LT,
    GT,
    LE,
    GE,
    AND,
    OR,
    XOR,
    SHL,
    SHR,
    POW,
}

/// A native number. A floating point number is held by its bits.
#[derive(Clone, Copy, Debug, PartialEq, Eq, Structural)]
pub enum Num {
    U24(u32),
    I24(i32),
    F24(u32),
}

/// The label of a lambda, application or fan.
#[derive(Debug, PartialEq, Eq)]
pub enum Tag {
    Named(Name),
    Numeric(u32),
    Auto,
    Static,
}

/// The mathematical content of a tag.
pub enum Tg {
    Named(Str),
    Numeric(u32),
    Auto,
    Static,
}

impl View for Tag {
    type V = Tg;

    open spec fn view(&self) -> Tg {
        match *self {
            Tag::Named(x) => Tg::Named(x@),
            Tag::Numeric(n) => Tg::Numeric(n),
            Tag::Auto => Tg::Auto,
            Tag::Static => Tg::Static,
        }
    }
}

impl Clone for Tag {
    fn clone(&self) -> (r: Self)
        ensures
            r@ == self@,
    {
        match self {
            Tag::Named(x) => Tag::Named(x.clone()),
            Tag::Numeric(n) => Tag::Numeric(*n),
            Tag::Auto => Tag::Auto,
            Tag::Static => Tag::Static,
        }
    }
}

/* Patterns */

#[derive(Debug, PartialEq, Eq)]
pub enum Pattern {
    Var(Option<Name>),
    Chn(Name),
    Ctr(Name, Vec<Pattern>),
    Num(u32),
    Fan(FanKind, Tag, Vec<Pattern>),
    Lst(Vec<Pattern>),
    Str(String),
}

/// What stands at the top of a pattern.
pub enum PatHead {
    Var(Option<Str>),
    Chn(Str),
    Ctr(Str),
    Num(u32),
    Fan(FanKind, Tg),
    Lst,
    Str(Str),
}

/// The mathematical content of a pattern: its top and the patterns below.
pub struct Pat {
    pub head: PatHead,
    pub kids: Seq<Pat>,
}

impl Pattern {
    pub open spec fn model(self) -> Pat
        decreases self,
    {
        match self {
            Pattern::Var(x) => Pat { head: PatHead::Var(name::opt_name(x)), kids: Seq::empty() },
            Pattern::Chn(x) => Pat { head: PatHead::Chn(x@), kids: Seq::empty() },
            Pattern::Ctr(x, ps) => Pat {
                head: PatHead::Ctr(x@),
                kids: Seq::new(
                    ps@.len(),
                    |i: int|
                        if 0 <= i < ps@.len() {
                            ps@[i].model()
                        } else {
                            arbitrary()
                        },
                ),
            },
            Pattern::Num(n) => Pat { head: PatHead::Num(n), kids: Seq::empty() },
            Pattern::Fan(fan, tag, ps) => Pat {
                head: PatHead::Fan(fan, tag@),
                kids: Seq::new(
                    ps@.len(),
                    |i: int|
                        if 0 <= i < ps@.len() {
                            ps@[i].model()
                        } else {
                            arbitrary()
                        },
                ),
            },
            Pattern::Lst(ps) => Pat {
                head: PatHead::Lst,
                kids: Seq::new(
                    ps@.len(),
                    |i: int|
                        if 0 <= i < ps@.len() {
                            ps@[i].model()
                        } else {
                            arbitrary()
                        },
                ),
            },
            Pattern::Str(s) => Pat { head: PatHead::Str(s@), kids: Seq::empty() },
        }
    }
}

impl View for Pattern {
    type V = Pat;

    open spec fn view(&self) -> Pat {
        self.model()
    }
}

/// The contents of a list of patterns.
pub open spec fn pat_models(ps: Seq<Pattern>) -> Seq<Pat> {
    Seq::new(ps.len(), |i: int| ps[i]@)
}

impl Clone for Pattern {
    fn clone(&self) -> (r: Self)
        ensures
            r@ == self@,
        decreases self,
    {
        let r = match self {
            Pattern::Var(x) => Pattern::Var(name::clone_opt_name(x)),
            Pattern::Chn(x) => Pattern::Chn(x.clone()),
            Pattern::Ctr(x, ps) => Pattern::Ctr(x.clone(), clone_patterns(ps)),
            Pattern::Num(n) => Pattern::Num(*n),
            Pattern::Fan(fan, tag, ps) => Pattern::Fan(*fan, tag.clone(), clone_patterns(ps)),
            Pattern::Lst(ps) => Pattern::Lst(clone_patterns(ps)),
            Pattern::Str(s) => Pattern::Str(s.clone()),
        };
        assert(r@.kids =~= self@.kids);
        r
    }
}

/// Copies a list of patterns.
pub fn clone_patterns(ps: &Vec<Pattern>) -> (r: Vec<Pattern>)
    ensures
        r@.len() == ps@.len(),
        forall|i: int| 0 <= i < r@.len() ==> (#[trigger] r@[i])@ == ps@[i]@,
        pat_models(r@) == pat_models(ps@),
    decreases ps,
{
    let mut r: Vec<Pattern> = Vec::new();
    let n: usize = ps.len();
    let mut i: usize = 0;
    while i < n
        invariant
            i <= n,
            n == ps@.len(),
            r@.len() == i,
            forall|j: int| 0 <= j < i ==> (#[trigger] r@[j])@ == ps@[j]@,
        decreases n - i,
    {
        let p = ps[i].clone();
        r.push(p);
        i += 1;
    }
    assert(pat_models(r@) =~= pat_models(ps@));
    r
}

/// The names that a pattern binds, from left to right. A variable without a
/// name counts as one that is missing.
pub open spec fn pat_binds(p: Pat) -> Seq<Option<Str>>
    decreases p, 0nat,
{
    match p.head {
        PatHead::Var(x) => seq![x],
        _ => pats_binds(p.kids),
    }
}

pub open spec fn pats_binds(ps: Seq<Pat>) -> Seq<Option<Str>>
    decreases ps, ps.len(),
{
    if ps.len() == 0 {
        Seq::empty()
    } else {
        pat_binds(ps[0]) + pats_binds(ps.drop_first())
    }
}

/* Terms */

/// The span of a definition in its file.
#[derive(Clone, Copy, Debug, PartialEq, Eq, Structural)]
pub struct Span {
    pub start: usize,
    pub end: usize,
}

#[derive(Clone, Copy, Debug, PartialEq, Eq, Structural)]
pub enum SourceKind {
    /// Built into the language.
    Builtin,
    /// Written by the user.
    User,
    /// Made by a transformation.
    Generated,
    /// Source of the definition is not known.
    Unknown,
}

/// Where a definition comes from.
#[derive(Debug, PartialEq, Eq)]
pub struct Source {
    pub file: Option<String>,
    pub span: Option<Span>,
    pub kind: SourceKind,
}

/// The mathematical content of a source.
pub struct Src {
    pub file: Option<Str>,
    pub span: Option<Span>,
    pub kind: SourceKind,
}

pub open spec fn opt_text(o: Option<String>) -> Option<Str> {
    match o {
        Some(s) => Some(s@),
        None => None,
    }
}

impl View for Source {
    type V = Src;

    open spec fn view(&self) -> Src {
        Src { file: opt_text(self.file), span: self.span, kind: self.kind }
    }
}

impl Clone for Source {
    fn clone(&self) -> (r: Self)
        ensures
            r@ == self@,
    {
        let file = match &self.file {
            Some(f) => Some(f.clone()),
            None => None,
        };
        Source { file, span: self.span, kind: self.kind }
    }
}

/// A pattern matching rule of a definition.
#[derive(Debug, PartialEq, Eq)]
pub struct Rule {
    pub pats: Vec<Pattern>,
    pub body: Term,
}

/// A function of the book.
#[derive(Debug, PartialEq, Eq)]
pub struct Definition {
    pub name: Name,
    pub typ: Type,
    pub check: bool,
    pub rules: Vec<Rule>,
    pub source: Source,
}

/// A case of a match: its constructor, the variables of the fields and the body.
pub type MatchRule = (Option<Name>, Vec<Option<Name>>, Term);

#[allow(inconsistent_fields)]
#[derive(Debug, PartialEq, Eq)]
pub enum Term {
    Lam { tag: Tag, pat: Box<Pattern>, bod: Box<Term> },
    Var { nam: Name },
    Link { nam: Name },
    Let { pat: Box<Pattern>, val: Box<Term>, nxt: Box<Term> },
    With { typ: Name, bod: Box<Term> },
    Ask { pat: Box<Pattern>, val: Box<Term>, nxt: Box<Term> },
    Use { nam: Option<Name>, val: Box<Term>, nxt: Box<Term> },
    App { tag: Tag, fun: Box<Term>, arg: Box<Term> },
    Fan { fan: FanKind, tag: Tag, els: Vec<Term> },
    Num { val: Num },
    Nat { val: u32 },
    Str { val: String },
    List { els: Vec<Term> },
    Oper { opr: Op, fst: Box<Term>, snd: Box<Term> },
    Mat {
        bnd: Option<Name>,
        arg: Box<Term>,
        with_bnd: Vec<Option<Name>>,
        with_arg: Vec<Term>,
        arms: Vec<MatchRule>,
    },
    Swt {
        bnd: Option<Name>,
        arg: Box<Term>,
        with_bnd: Vec<Option<Name>>,
        with_arg: Vec<Term>,
        pred: Option<Name>,
        arms: Vec<Term>,
    },
    Fold {
        bnd: Option<Name>,
        arg: Box<Term>,
        with_bnd: Vec<Option<Name>>,
        with_arg: Vec<Term>,
        arms: Vec<MatchRule>,
    },
    Bend {
        bnd: Vec<Option<Name>>,
        args: Vec<Term>,
        cond: Box<Term>,
        step: Box<Term>,
        base: Box<Term>,
    },
    Open { typ: Name, var: Name, bod: Box<Term> },
    Ref { nam: Name },
    Def { def: Definition, nxt: Box<Term> },
    Era,
    ErrTerm,
}

/// What a match holds besides its terms: the number of terms that it passes
/// on, and for each arm its constructor and its variables.
#[verifier::ext_equal]
pub struct MatHead {
    pub bnd: Option<Str>,
    pub with_bnd: Seq<Option<Str>>,
    pub args: nat,
    pub arms: Seq<(Option<Str>, Seq<Option<Str>>)>,
}

/// What a switch holds besides its terms.
pub struct SwtHead {
    pub bnd: Option<Str>,
    pub with_bnd: Seq<Option<Str>>,
    pub args: nat,
    pub pred: Option<Str>,
}

/// What a definition holds besides the bodies of its rules.
pub struct DefHead {
    pub name: Str,
    pub typ: Ty,
    pub check: bool,
    pub pats: Seq<Seq<Pat>>,
    pub source: Src,
}

/// What stands at the top of a term.
#[verifier::ext_equal]
pub enum Th {
    Lam(Tg, Pat),
    Var(Str),
    Link(Str),
    Let(Pat),
    With(Str),
    Ask(Pat),
    Use(Option<Str>),
    App(Tg),
    Fan(FanKind, Tg),
    Num(Num),
    Nat(u32),
    Str(Str),
    List,
    Oper(Op),
    Mat(MatHead),
    Swt(SwtHead),
    Fold(MatHead),
    Bend(Seq<Option<Str>>),
    Open(Str, Str),
    Ref(Str),
    Def(DefHead),
    Era,
    ErrTerm,
}

/// The mathematical content of a term: its top and the terms below, from left
/// to right.
#[verifier::ext_equal]
pub struct Tm {
    pub head: Th,
    pub kids: Seq<Tm>,
}

pub open spec fn tm_leaf(head: Th) -> Tm {
    Tm { head, kids: Seq::empty() }
}

pub open spec fn opt_names(xs: Seq<Option<Name>>) -> Seq<Option<Str>> {
    Seq::new(xs.len(), |i: int| name::opt_name(xs[i]))
}

/// The constructors and variables of the arms of a match.
pub open spec fn arm_heads(arms: Seq<MatchRule>) -> Seq<(Option<Str>, Seq<Option<Str>>)> {
    Seq::new(arms.len(), |i: int| (name::opt_name(arms[i].0), opt_names(arms[i].1@)))
}

pub open spec fn rule_pats(rules: Seq<Rule>) -> Seq<Seq<Pat>> {
    Seq::new(rules.len(), |i: int| pat_models(rules[i].pats@))
}

impl Term {
    pub open spec fn model(self) -> Tm
        decreases self,
    {
        match self {
            Term::Lam { tag, pat, bod } => Tm {
                head: Th::Lam(tag@, (*pat)@),
                kids: seq![(*bod).model()],
            },
            Term::Var { nam } => tm_leaf(Th::Var(nam@)),
            Term::Link { nam } => tm_leaf(Th::Link(nam@)),
            Term::Let { pat, val, nxt } => Tm {
                head: Th::Let((*pat)@),
                kids: seq![(*val).model(), (*nxt).model()],
            },
            Term::With { typ, bod } => Tm { head: Th::With(typ@), kids: seq![(*bod).model()] },
            Term::Ask { pat, val, nxt } => Tm {
                head: Th::Ask((*pat)@),
                kids: seq![(*val).model(), (*nxt).model()],
            },
            Term::Use { nam, val, nxt } => Tm {
                head: Th::Use(name::opt_name(nam)),
                kids: seq![(*val).model(), (*nxt).model()],
            },
            Term::App { tag, fun, arg } => Tm {
                head: Th::App(tag@),
                kids: seq![(*fun).model(), (*arg).model()],
            },
            Term::Fan { fan, tag, els } => Tm {
                head: Th::Fan(fan, tag@),
                kids: Seq::new(
                    els@.len(),
                    |i: int|
                        if 0 <= i < els@.len() {
                            els@[i].model()
                        } else {
                            arbitrary()
                        },
                ),
            },
            Term::Num { val } => tm_leaf(Th::Num(val)),
            Term::Nat { val } => tm_leaf(Th::Nat(val)),
            Term::Str { val } => tm_leaf(Th::Str(val@)),
            Term::List { els } => Tm {
                head: Th::List,
                kids: Seq::new(
                    els@.len(),
                    |i: int|
                        if 0 <= i < els@.len() {
                            els@[i].model()
                        } else {
                            arbitrary()
                        },
                ),
            },
            Term::Oper { opr, fst, snd } => Tm {
                head: Th::Oper(opr),
                kids: seq![(*fst).model(), (*snd).model()],
            },
            Term::Mat { bnd, arg, with_bnd, with_arg, arms } => Tm {
                head: Th::Mat(
                    MatHead {
                        bnd: name::opt_name(bnd),
                        with_bnd: opt_names(with_bnd@),
                        args: with_arg@.len(),
                        arms: arm_heads(arms@),
                    },
                ),
                kids: seq![(*arg).model()] + Seq::new(
                    with_arg@.len(),
                    |i: int|
                        if 0 <= i < with_arg@.len() {
                            with_arg@[i].model()
                        } else {
                            arbitrary()
                        },
                ) + Seq::new(
                    arms@.len(),
                    |i: int|
                        if 0 <= i < arms@.len() {
                            arms@[i].2.model()
                        } else {
                            arbitrary()
                        },
                ),
            },
            Term::Swt { bnd, arg, with_bnd, with_arg, pred, arms } => Tm {
                head: Th::Swt(
                    SwtHead {
                        bnd: name::opt_name(bnd),
                        with_bnd: opt_names(with_bnd@),
                        args: with_arg@.len(),
                        pred: name::opt_name(pred),
                    },
                ),
                kids: seq![(*arg).model()] + Seq::new(
                    with_arg@.len(),
                    |i: int|
                        if 0 <= i < with_arg@.len() {
                            with_arg@[i].model()
                        } else {
                            arbitrary()
                        },
                ) + Seq::new(
                    arms@.len(),
                    |i: int|
                        if 0 <= i < arms@.len() {
                            arms@[i].model()
                        } else {
                            arbitrary()
                        },
                ),
            },
            Term::Fold { bnd, arg, with_bnd, with_arg, arms } => Tm {
                head: Th::Fold(
                    MatHead {
                        bnd: name::opt_name(bnd),
                        with_bnd: opt_names(with_bnd@),
                        args: with_arg@.len(),
                        arms: arm_heads(arms@),
                    },
                ),
                kids: seq![(*arg).model()] + Seq::new(
                    with_arg@.len(),
                    |i: int|
                        if 0 <= i < with_arg@.len() {
                            with_arg@[i].model()
                        } else {
                            arbitrary()
                        },
                ) + Seq::new(
                    arms@.len(),
                    |i: int|
                        if 0 <= i < arms@.len() {
                            arms@[i].2.model()
                        } else {
                            arbitrary()
                        },
                ),
            },
            Term::Bend { bnd, args, cond, step, base } => Tm {
                head: Th::Bend(opt_names(bnd@)),
                kids: Seq::new(
                    args@.len(),
                    |i: int|
                        if 0 <= i < args@.len() {
                            args@[i].model()
                        } else {
                            arbitrary()
                        },
                ) + seq![(*cond).model(), (*step).model(), (*base).model()],
            },
            Term::Open { typ, var, bod } => Tm {
                head: Th::Open(typ@, var@),
                kids: seq![(*bod).model()],
            },
            Term::Ref { nam } => tm_leaf(Th::Ref(nam@)),
            Term::Def { def, nxt } => Tm {
                head: Th::Def(
                    DefHead {
                        name: def.name@,
                        typ: def.typ@,
                        check: def.check,
                        pats: rule_pats(def.rules@),
                        source: def.source@,
                    },
                ),
                kids: Seq::new(
                    def.rules@.len(),
                    |i: int|
                        if 0 <= i < def.rules@.len() {
                            def.rules@[i].body.model()
                        } else {
                            arbitrary()
                        },
                ) + seq![(*nxt).model()],
            },
            Term::Era => tm_leaf(Th::Era),
            Term::ErrTerm => tm_leaf(Th::ErrTerm),
        }
    }
}

impl View for Term {
    type V = Tm;

    open spec fn view(&self) -> Tm {
        self.model()
    }
}

/// The contents of a list of terms.
pub open spec fn tm_models(ts: Seq<Term>) -> Seq<Tm> {
    Seq::new(ts.len(), |i: int| ts[i]@)
}

/// The contents of a list of borrowed terms.
pub open spec fn tm_ref_models(ts: Seq<&Term>) -> Seq<Tm> {
    Seq::new(ts.len(), |i: int| ts[i]@)
}

/// The mathematical content of a rule.
pub struct Rm {
    pub pats: Seq<Pat>,
    pub body: Tm,
}

impl View for Rule {
    type V = Rm;

    open spec fn view(&self) -> Rm {
        Rm { pats: pat_models(self.pats@), body: self.body@ }
    }
}

/// The mathematical content of a definition.
pub struct Dm {
    pub name: Str,
    pub typ: Ty,
    pub check: bool,
    pub rules: Seq<Rm>,
    pub source: Src,
}

impl View for Definition {
    type V = Dm;

    open spec fn view(&self) -> Dm {
        Dm {
            name: self.name@,
            typ: self.typ@,
            check: self.check,
            rules: Seq::new(self.rules@.len(), |i: int| self.rules@[i]@),
            source: self.source@,
        }
    }
}

/* Copies */

pub fn clone_opt_names(xs: &Vec<Option<Name>>) -> (r: Vec<Option<Name>>)
    ensures
        opt_names(r@) == opt_names(xs@),
{
    let mut r: Vec<Option<Name>> = Vec::new();
    let n: usize = xs.len();
    let mut i: usize = 0;
    while i < n
        invariant
            i <= n,
            n == xs@.len(),
            r@.len() == i,
            forall|j: int| 0 <= j < i ==> name::opt_name(#[trigger] r@[j]) == name::opt_name(xs@[j]),
        decreases n - i,
    {
        r.push(name::clone_opt_name(&xs[i]));
        i += 1;
    }
    assert(opt_names(r@) =~= opt_names(xs@));
    r
}

fn clone_terms(ts: &Vec<Term>) -> (r: Vec<Term>)
    ensures
        r@.len() == ts@.len(),
        forall|i: int| 0 <= i < r@.len() ==> (#[trigger] r@[i])@ == ts@[i]@,
    decreases ts,
{
    let mut r: Vec<Term> = Vec::new();
    let n: usize = ts.len();
    let mut i: usize = 0;
    while i < n
        invariant
            i <= n,
            n == ts@.len(),
            r@.len() == i,
            forall|j: int| 0 <= j < i ==> (#[trigger] r@[j])@ == ts@[j]@,
        decreases n - i,
    {
        let t = ts[i].clone();
        r.push(t);
        i += 1;
    }
    r
}

fn clone_arms(arms: &Vec<MatchRule>) -> (r: Vec<MatchRule>)
    ensures
        r@.len() == arms@.len(),
        arm_heads(r@) == arm_heads(arms@),
        forall|i: int| 0 <= i < r@.len() ==> (#[trigger] r@[i]).2@ == arms@[i].2@,
    decreases arms,
{
    let mut r: Vec<MatchRule> = Vec::new();
    let n: usize = arms.len();
    let mut i: usize = 0;
    while i < n
        invariant
            i <= n,
            n == arms@.len(),
            r@.len() == i,
            forall|j: int|
                0 <= j < i ==> name::opt_name((#[trigger] r@[j]).0) == name::opt_name(arms@[j].0) && opt_names(
                    r@[j].1@,
                ) == opt_names(arms@[j].1@) && r@[j].2@ == arms@[j].2@,
        decreases n - i,
    {
        let arm = &arms[i];
        assert(decreases_to!(arms => arms@[i as int].2));
        let t = arm.2.clone();
        r.push((name::clone_opt_name(&arm.0), clone_opt_names(&arm.1), t));
        i += 1;
    }
    assert(arm_heads(r@) =~= arm_heads(arms@));
    r
}

impl Clone for Term {
    fn clone(&self) -> (r: Self)
        ensures
            r@ == self@,
        decreases self,
    {
        let r = match self {
            Term::Lam { tag, pat, bod } => Term::Lam {
                tag: tag.clone(),
                pat: Box::new((**pat).clone()),
                bod: Box::new((**bod).clone()),
            },
            Term::Var { nam } => Term::Var { nam: nam.clone() },
            Term::Link { nam } => Term::Link { nam: nam.clone() },
            Term::Let { pat, val, nxt } => Term::Let {
                pat: Box::new((**pat).clone()),
                val: Box::new((**val).clone()),
                nxt: Box::new((**nxt).clone()),
            },
            Term::With { typ, bod } => Term::With {
                typ: typ.clone(),
                bod: Box::new((**bod).clone()),
            },
            Term::Ask { pat, val, nxt } => Term::Ask {
                pat: Box::new((**pat).clone()),
                val: Box::new((**val).clone()),
                nxt: Box::new((**nxt).clone()),
            },
            Term::Use { nam, val, nxt } => Term::Use {
                nam: name::clone_opt_name(nam),
                val: Box::new((**val).clone()),
                nxt: Box::new((**nxt).clone()),
            },
            Term::App { tag, fun, arg } => Term::App {
                tag: tag.clone(),
                fun: Box::new((**fun).clone()),
                arg: Box::new((**arg).clone()),
            },
            Term::Fan { fan, tag, els } => Term::Fan {
                fan: *fan,
                tag: tag.clone(),
                els: clone_terms(els),
            },
            Term::Num { val } => Term::Num { val: *val },
            Term::Nat { val } => Term::Nat { val: *val },
            Term::Str { val } => Term::Str { val: val.clone() },
            Term::List { els } => Term::List { els: clone_terms(els) },
            Term::Oper { opr, fst, snd } => Term::Oper {
                opr: *opr,
                fst: Box::new((**fst).clone()),
                snd: Box::new((**snd).clone()),
            },
            Term::Mat { bnd, arg, with_bnd, with_arg, arms } => Term::Mat {
                bnd: name::clone_opt_name(bnd),
                arg: Box::new((**arg).clone()),
                with_bnd: clone_opt_names(with_bnd),
                with_arg: clone_terms(with_arg),
                arms: clone_arms(arms),
            },
            Term::Swt { bnd, arg, with_bnd, with_arg, pred, arms } => Term::Swt {
                bnd: name::clone_opt_name(bnd),
                arg: Box::new((**arg).clone()),
                with_bnd: clone_opt_names(with_bnd),
                with_arg: clone_terms(with_arg),
                pred: name::clone_opt_name(pred),
                arms: clone_terms(arms),
            },
            Term::Fold { bnd, arg, with_bnd, with_arg, arms } => Term::Fold {
                bnd: name::clone_opt_name(bnd),
                arg: Box::new((**arg).clone()),
                with_bnd: clone_opt_names(with_bnd),
                with_arg: clone_terms(with_arg),
                arms: clone_arms(arms),
            },
            Term::Bend { bnd, args, cond, step, base } => Term::Bend {
                bnd: clone_opt_names(bnd),
                args: clone_terms(args),
                cond: Box::new((**cond).clone()),
                step: Box::new((**step).clone()),
                base: Box::new((**base).clone()),
            },
            Term::Open { typ, var, bod } => Term::Open {
                typ: typ.clone(),
                var: var.clone(),
                bod: Box::new((**bod).clone()),
            },
            Term::Ref { nam } => Term::Ref { nam: nam.clone() },
            Term::Def { def, nxt } => Term::Def {
                def: def.clone(),
                nxt: Box::new((**nxt).clone()),
            },
            Term::Era => Term::Era,
            Term::ErrTerm => Term::ErrTerm,
        };
        assert(r@.kids =~= self@.kids);
        r
    }
}

fn clone_rules(rules: &Vec<Rule>) -> (r: Vec<Rule>)
    ensures
        r@.len() == rules@.len(),
        rule_pats(r@) == rule_pats(rules@),
        forall|i: int| 0 <= i < r@.len() ==> (#[trigger] r@[i])@ == rules@[i]@,
        forall|i: int| 0 <= i < r@.len() ==> (#[trigger] r@[i]).body@ == rules@[i].body@,
    decreases rules,
{
    let mut r: Vec<Rule> = Vec::new();
    let n: usize = rules.len();
    let mut i: usize = 0;
    while i < n
        invariant
            i <= n,
            n == rules@.len(),
            r@.len() == i,
            forall|j: int| 0 <= j < i ==> (#[trigger] r@[j])@ == rules@[j]@,
        decreases n - i,
    {
        let rule = &rules[i];
        assert(decreases_to!(rules => rules@[i as int].body));
        let body = rule.body.clone();
        r.push(Rule { pats: clone_patterns(&rule.pats), body });
        i += 1;
    }
    assert forall|j: int| 0 <= j < n implies rule_pats(r@)[j] == rule_pats(rules@)[j] by {
        assert(r@[j]@ == rules@[j]@);
    }
    assert(rule_pats(r@) =~= rule_pats(rules@));
    r
}

impl Clone for Definition {
    fn clone(&self) -> (r: Self)
        ensures
            r@ == self@,
            rule_pats(r.rules@) == rule_pats(self.rules@),
            r.rules@.len() == self.rules@.len(),
            forall|i: int|
                0 <= i < r.rules@.len() ==> (#[trigger] r.rules@[i]).body@ == self.rules@[i].body@,
        decreases self,
    {
        let r = Definition {
            name: self.name.clone(),
            typ: self.typ.clone(),
            check: self.check,
            rules: clone_rules(&self.rules),
            source: self.source.clone(),
        };
        assert(r@.rules =~= self@.rules);
        r
    }
}

/* The terms below a term */

fn push_terms<'a>(r: &mut Vec<&'a Term>, ts: &'a Vec<Term>)
    ensures
        final(r)@.len() == old(r)@.len() + ts@.len(),
        forall|j: int| 0 <= j < old(r)@.len() ==> #[trigger] final(r)@[j] == old(r)@[j],
        forall|j: int|
            old(r)@.len() <= j < final(r)@.len() ==> *#[trigger] final(r)@[j] == ts@[j - old(r)@.len()],
{
    let n: usize = ts.len();
    let ghost m = r@.len();
    let mut i: usize = 0;
    while i < n
        invariant
            i <= n,
            n == ts@.len(),
            m == old(r)@.len(),
            r@.len() == m + i,
            forall|j: int| 0 <= j < m ==> #[trigger] r@[j] == old(r)@[j],
            forall|j: int| m <= j < r@.len() ==> *#[trigger] r@[j] == ts@[j - m],
        decreases n - i,
    {
        r.push(&ts[i]);
        i += 1;
    }
}

fn push_arms<'a>(r: &mut Vec<&'a Term>, arms: &'a Vec<MatchRule>)
    ensures
        final(r)@.len() == old(r)@.len() + arms@.len(),
        forall|j: int| 0 <= j < old(r)@.len() ==> #[trigger] final(r)@[j] == old(r)@[j],
        forall|j: int|
            old(r)@.len() <= j < final(r)@.len() ==> *#[trigger] final(r)@[j] == arms@[j - old(r)@.len()].2,
{
    let n: usize = arms.len();
    let ghost m = r@.len();
    let mut i: usize = 0;
    while i < n
        invariant
            i <= n,
            n == arms@.len(),
            m == old(r)@.len(),
            r@.len() == m + i,
            forall|j: int| 0 <= j < m ==> #[trigger] r@[j] == old(r)@[j],
            forall|j: int| m <= j < r@.len() ==> *#[trigger] r@[j] == arms@[j - m].2,
        decreases n - i,
    {
        r.push(&arms[i].2);
        i += 1;
    }
}

fn push_bodies<'a>(r: &mut Vec<&'a Term>, rules: &'a Vec<Rule>)
    ensures
        final(r)@.len() == old(r)@.len() + rules@.len(),
        forall|j: int| 0 <= j < old(r)@.len() ==> #[trigger] final(r)@[j] == old(r)@[j],
        forall|j: int|
            old(r)@.len() <= j < final(r)@.len() ==> *#[trigger] final(r)@[j] == rules@[j
                - old(r)@.len()].body,
{
    let n: usize = rules.len();
    let ghost m = r@.len();
    let mut i: usize = 0;
    while i < n
        invariant
            i <= n,
            n == rules@.len(),
            m == old(r)@.len(),
            r@.len() == m + i,
            forall|j: int| 0 <= j < m ==> #[trigger] r@[j] == old(r)@[j],
            forall|j: int| m <= j < r@.len() ==> *#[trigger] r@[j] == rules@[j - m].body,
        decreases n - i,
    {
        r.push(&rules[i].body);
        i += 1;
    }
}

impl Term {
    /// The terms directly below this one, from left to right.
    pub fn children(&self) -> (r: Vec<&Term>)
        ensures
            tm_ref_models(r@) == self@.kids,
            r@.len() == self@.kids.len(),
            forall|i: int| 0 <= i < r@.len() ==> (#[trigger] r@[i])@ == self@.kids[i],
            forall|i: int| 0 <= i < r@.len() ==> decreases_to!(self => #[trigger] r@[i]),
    {
        let mut r: Vec<&Term> = Vec::new();
        match self {
            Term::Lam { bod, .. } | Term::With { bod, .. } | Term::Open { bod, .. } => {
                r.push(&**bod);
            },
            Term::Let { val: a, nxt: b, .. }
            | Term::Ask { val: a, nxt: b, .. }
            | Term::Use { val: a, nxt: b, .. }
            | Term::App { fun: a, arg: b, .. }
            | Term::Oper { fst: a, snd: b, .. } => {
                r.push(&**a);
                r.push(&**b);
            },
            Term::Fan { els, .. } | Term::List { els } => {
                push_terms(&mut r, els);
            },
            Term::Mat { arg, with_arg, arms, .. } | Term::Fold { arg, with_arg, arms, .. } => {
                r.push(&**arg);
                push_terms(&mut r, with_arg);
                push_arms(&mut r, arms);
                proof {
                    assert forall|i: int| 0 <= i < r@.len() implies decreases_to!(self => #[trigger] r@[i]) by {
                        if i > 0 && i < 1 + with_arg@.len() {
                            assert(*r@[i] == with_arg@[i - 1]);
                        } else if i > 0 {
                            let k = i - 1 - with_arg@.len();
                            assert(*r@[i] == arms@[k].2);
                            assert(decreases_to!(arms => arms@[k].2));
                        }
                    }
                }
            },
            Term::Swt { arg, with_arg, arms, .. } => {
                r.push(&**arg);
                push_terms(&mut r, with_arg);
                push_terms(&mut r, arms);
                proof {
                    assert forall|i: int| 0 <= i < r@.len() implies decreases_to!(self => #[trigger] r@[i]) by {
                        if i > 0 && i < 1 + with_arg@.len() {
                            assert(*r@[i] == with_arg@[i - 1]);
                        } else if i > 0 {
                            assert(*r@[i] == arms@[i - 1 - with_arg@.len()]);
                        }
                    }
                }
            },
            Term::Bend { args, cond, step, base, .. } => {
                push_terms(&mut r, args);
                r.push(&**cond);
                r.push(&**step);
                r.push(&**base);
            },
            Term::Def { def, nxt } => {
                push_bodies(&mut r, &def.rules);
                r.push(&**nxt);
                proof {
                    assert forall|i: int| 0 <= i < r@.len() implies decreases_to!(self => #[trigger] r@[i]) by {
                        if i < def.rules@.len() {
                            assert(*r@[i] == def.rules@[i].body);
                            assert(decreases_to!(def.rules => def.rules@[i].body));
                        }
                    }
                }
            },
            Term::Var { .. }
            | Term::Link { .. }
            | Term::Num { .. }
            | Term::Nat { .. }
            | Term::Str { .. }
            | Term::Ref { .. }
            | Term::Era
            | Term::ErrTerm => {},
        }
        assert(tm_ref_models(r@) =~= self@.kids);
        assert forall|i: int| 0 <= i < r@.len() implies (#[trigger] r@[i])@ == self@.kids[i] by {
            assert(tm_ref_models(r@)[i] == self@.kids[i]);
        }
        r
    }
}

/* Binders */

impl Pattern {
    /// The patterns directly below this one.
    pub fn children(&self) -> (r: Vec<&Pattern>)
        ensures
            r@.len() == self@.kids.len(),
            forall|i: int| 0 <= i < r@.len() ==> (#[trigger] r@[i])@ == self@.kids[i],
            forall|i: int| 0 <= i < r@.len() ==> decreases_to!(self => #[trigger] r@[i]),
    {
        let mut r: Vec<&Pattern> = Vec::new();
        match self {
            Pattern::Ctr(_, ps) | Pattern::Fan(_, _, ps) | Pattern::Lst(ps) => {
                let n: usize = ps.len();
                let mut i: usize = 0;
                while i < n
                    invariant
                        i <= n,
                        n == ps@.len(),
                        r@.len() == i,
                        forall|j: int| 0 <= j < i ==> *#[trigger] r@[j] == ps@[j],
                    decreases n - i,
                {
                    r.push(&ps[i]);
                    i += 1;
                }
                proof {
                    assert forall|i: int| 0 <= i < r@.len() implies decreases_to!(self => #[trigger] r@[i]) by {
                        assert(*r@[i] == ps@[i]);
                    }
                }
            },
            Pattern::Var(_) | Pattern::Chn(_) | Pattern::Num(_) | Pattern::Str(_) => {},
        }
        r
    }

    fn push_binds(&self, r: &mut Vec<Option<Name>>)
        ensures
            opt_names(final(r)@) == opt_names(old(r)@) + pat_binds(self@),
        decreases self,
    {
        match self {
            Pattern::Var(x) => {
                let ghost before = r@;
                r.push(name::clone_opt_name(x));
                assert(opt_names(r@) =~= opt_names(before) + seq![name::opt_name(*x)]);
            },
            _ => {
                let ps = self.children();
                let ghost ms = self@.kids;
                let n: usize = ps.len();
                let mut i: usize = 0;
                assert(ms.skip(0) =~= ms);
                while i < n
                    invariant
                        i <= n,
                        n == ps@.len(),
                        n == ms.len(),
                        forall|j: int| 0 <= j < n ==> (#[trigger] ps@[j])@ == ms[j],
                        forall|j: int| 0 <= j < n ==> decreases_to!(self => #[trigger] ps@[j]),
                        opt_names(r@) + pats_binds(ms.skip(i as int)) == opt_names(old(r)@) + pats_binds(ms),
                    decreases n - i,
                {
                    let ghost before = opt_names(r@);
                    ps[i].push_binds(r);
                    proof {
                        let rest = ms.skip(i as int);
                        assert(rest[0] == ps@[i as int]@);
                        assert(rest.drop_first() =~= ms.skip(i + 1));
                        assert(opt_names(r@) + pats_binds(ms.skip(i + 1)) =~= before + pats_binds(rest));
                    }
                    i += 1;
                }
                proof {
                    assert(pats_binds(ms.skip(n as int)) =~= Seq::empty());
                    assert(opt_names(r@) =~= opt_names(old(r)@) + pats_binds(ms));
                }
            },
        }
    }

    /// The names that the pattern binds, from left to right.
    pub fn binds(&self) -> (r: Vec<Option<Name>>)
        ensures
            opt_names(r@) == pat_binds(self@),
    {
        let mut r: Vec<Option<Name>> = Vec::new();
        assert(opt_names(r@) =~= Seq::empty());
        self.push_binds(&mut r);
        assert(opt_names(r@) =~= pat_binds(self@));
        r
    }
}

/// The pattern of a term.
pub open spec fn tm_pattern(t: Tm) -> Option<Pat> {
    match t.head {
        Th::Lam(_, p) => Some(p),
        Th::Let(p) => Some(p),
        Th::Ask(p) => Some(p),
        _ => None,
    }
}

/// The names that a term binds in one of the terms below.
pub open spec fn kid_binds(t: Tm, i: int) -> Seq<Option<Str>> {
    match t.head {
        Th::Lam(_, p) => pat_binds(p),
        Th::Let(p) => if i == 1 {
            pat_binds(p)
        } else {
            Seq::empty()
        },
        Th::Ask(p) => if i == 1 {
            pat_binds(p)
        } else {
            Seq::empty()
        },
        Th::Use(x) => if i == 1 {
            seq![x]
        } else {
            Seq::empty()
        },
        Th::Mat(h) => mat_binds(h, i),
        Th::Fold(h) => mat_binds(h, i),
        Th::Swt(h) => if i <= h.args {
            Seq::empty()
        } else if i == t.kids.len() - 1 {
            seq![h.bnd, h.pred] + h.with_bnd
        } else {
            seq![h.bnd] + h.with_bnd
        },
        Th::Bend(bnd) => if i < t.kids.len() - 3 {
            Seq::empty()
        } else {
            bnd
        },
        _ => Seq::empty(),
    }
}

/// The names that a match binds in one of its arms.
pub open spec fn mat_binds(h: MatHead, i: int) -> Seq<Option<Str>> {
    if i <= h.args {
        Seq::empty()
    } else {
        seq![h.bnd] + h.arms[i - 1 - h.args].1 + h.with_bnd
    }
}

/// Adds optional names to a list.
pub fn push_opt_names(r: &mut Vec<Option<Name>>, xs: &Vec<Option<Name>>)
    ensures
        opt_names(final(r)@) == opt_names(old(r)@) + opt_names(xs@),
{
    let n: usize = xs.len();
    let ghost m = r@.len();
    let mut i: usize = 0;
    while i < n
        invariant
            i <= n,
            n == xs@.len(),
            m == old(r)@.len(),
            r@.len() == m + i,
            forall|j: int| 0 <= j < m ==> #[trigger] r@[j] == old(r)@[j],
            forall|j: int|
                m <= j < r@.len() ==> name::opt_name(#[trigger] r@[j]) == name::opt_name(xs@[j - m]),
        decreases n - i,
    {
        r.push(name::clone_opt_name(&xs[i]));
        i += 1;
    }
    assert(opt_names(r@) =~= opt_names(old(r)@) + opt_names(xs@));
}

impl Term {
    /// The pattern of the term, if it has one.
    pub fn pattern(&self) -> (r: Option<&Pattern>)
        ensures
            match r {
                Some(p) => tm_pattern(self@) == Some(p@),
                None => tm_pattern(self@) is None,
            },
    {
        match self {
            Term::Lam { pat, .. } | Term::Let { pat, .. } | Term::Ask { pat, .. } => Some(&**pat),
            _ => None,
        }
    }

    /// The names that the term binds in one of the terms below.
    pub fn child_binds(&self, i: usize) -> (r: Vec<Option<Name>>)
        requires
            i < self@.kids.len(),
        ensures
            opt_names(r@) == kid_binds(self@, i as int),
    {
        let mut r: Vec<Option<Name>> = Vec::new();
        assert(opt_names(r@) =~= Seq::empty());
        match self {
            Term::Lam { pat, .. } => {
                return pat.binds();
            },
            Term::Let { pat, .. } | Term::Ask { pat, .. } => {
                if i == 1 {
                    return pat.binds();
                }
            },
            Term::Use { nam, .. } => {
                if i == 1 {
                    r.push(name::clone_opt_name(nam));
                    assert(opt_names(r@) =~= seq![name::opt_name(*nam)]);
                }
            },
            Term::Mat { bnd, with_bnd, with_arg, arms, .. }
            | Term::Fold { bnd, with_bnd, with_arg, arms, .. } => {
                if i > with_arg.len() {
                    r.push(name::clone_opt_name(bnd));
                    assert(opt_names(r@) =~= seq![name::opt_name(*bnd)]);
                    push_opt_names(&mut r, &arms[i - 1 - with_arg.len()].1);
                    push_opt_names(&mut r, with_bnd);
                }
            },
            Term::Swt { bnd, with_bnd, with_arg, pred, arms, .. } => {
                if i > with_arg.len() {
                    r.push(name::clone_opt_name(bnd));
                    assert(opt_names(r@) =~= seq![name::opt_name(*bnd)]);
                    if i - with_arg.len() == arms.len() {
                        r.push(name::clone_opt_name(pred));
                        assert(opt_names(r@) =~= seq![name::opt_name(*bnd), name::opt_name(*pred)]);
                    }
                    push_opt_names(&mut r, with_bnd);
                }
            },
            Term::Bend { bnd, args, .. } => {
                if i >= args.len() {
                    return clone_opt_names(bnd);
                }
            },
            _ => {},
        }
        r
    }
}

/* Definitions */

/// The definition has one rule, which matches nothing.
pub open spec fn has_one_rule(d: Dm) -> bool {
    d.rules.len() == 1 && d.rules[0].pats.len() == 0
}

/// The body of a definition with one rule.
pub open spec fn body_of(d: Dm) -> Tm {
    d.rules[0].body
}

/// Where a definition that is made from another one comes from.
pub open spec fn generated_source(s: Src) -> Src {
    Src {
        kind: if s.kind == SourceKind::Builtin {
            SourceKind::Builtin
        } else {
            SourceKind::Generated
        },
        ..s
    }
}

impl Definition {
    /// A definition that is made by a transformation.
    pub fn new_gen(nam: Name, rules: Vec<Rule>, source: Source, check: bool) -> (r: Self)
        ensures
            r@.name == nam@,
            r@.typ == (Ty { head: crate::fun::ty::Head::Hole, kids: Seq::empty() }),
            r@.check == check,
            r@.rules == Seq::new(rules@.len(), |i: int| rules@[i]@),
            r@.source == generated_source(source@),
    {
        let kind = match source.kind {
            SourceKind::Builtin => SourceKind::Builtin,
            _ => SourceKind::Generated,
        };
        Definition {
            name: nam,
            typ: Type::Hole,
            check,
            rules,
            source: Source { file: source.file, span: source.span, kind },
        }
    }

    /// The only rule of the definition.
    pub fn rule(&self) -> (r: &Rule)
        requires
            has_one_rule(self@),
        ensures
            r@ == self@.rules[0],
            r.body@ == body_of(self@),
            *r == self.rules@[0],
    {
        assert(self@.rules[0] == self.rules@[0]@);
        &self.rules[0]
    }
}

/// The names that a term refers to.
pub open spec fn all_refs(t: Tm) -> Set<Str>
    decreases t,
{
    Set::new(
        |x: Str|
            t.head == Th::Ref(x) || exists|i: int|
                0 <= i < t.kids.len() && all_refs(#[trigger] t.kids[i]).contains(x),
    )
}

} // verus!
