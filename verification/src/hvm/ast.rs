//! Interaction nets.

use crate::name::Str;
use crate::name_map::NameMap;
use vstd::prelude::*;

verus! {

/// A tree of an interaction net. A number is held by its bits.
#[derive(Debug, PartialEq, Eq)]
pub enum Tree {
    Var { nam: String },
    Ref { nam: String },
    Era,
    Num { val: u32 },
    Con { fst: Box<Tree>, snd: Box<Tree> },
    Dup { fst: Box<Tree>, snd: Box<Tree> },
    Opr { fst: Box<Tree>, snd: Box<Tree> },
    Swi { fst: Box<Tree>, snd: Box<Tree> },
}

/// The mathematical content of a tree.
pub enum Tr {
    Var(Str),
    Ref(Str),
    Era,
    Num(u32),
    Con(Box<Tr>, Box<Tr>),
    Dup(Box<Tr>, Box<Tr>),
    Opr(Box<Tr>, Box<Tr>),
    Swi(Box<Tr>, Box<Tr>),
}

impl Tree {
    pub open spec fn model(self) -> Tr
        decreases self,
    {
        match self {
            Tree::Var { nam } => Tr::Var(nam@),
            Tree::Ref { nam } => Tr::Ref(nam@),
            Tree::Era => Tr::Era,
            Tree::Num { val } => Tr::Num(val),
            Tree::Con { fst, snd } => Tr::Con(Box::new((*fst).model()), Box::new((*snd).model())),
            Tree::Dup { fst, snd } => Tr::Dup(Box::new((*fst).model()), Box::new((*snd).model())),
            Tree::Opr { fst, snd } => Tr::Opr(Box::new((*fst).model()), Box::new((*snd).model())),
            Tree::Swi { fst, snd } => Tr::Swi(Box::new((*fst).model()), Box::new((*snd).model())),
        }
    }
}

impl View for Tree {
    type V = Tr;

    open spec fn view(&self) -> Tr {
        self.model()
    }
}

/// The trees directly below a tree.
pub open spec fn tr_kids(t: Tr) -> Seq<Tr> {
    match t {
        Tr::Con(a, b) => seq![*a, *b],
        Tr::Dup(a, b) => seq![*a, *b],
        Tr::Opr(a, b) => seq![*a, *b],
        Tr::Swi(a, b) => seq![*a, *b],
        _ => Seq::empty(),
    }
}

/// The trees directly below a tree, from left to right.
pub fn tree_children(tree: &Tree) -> (r: Vec<&Tree>)
    ensures
        r@.len() == tr_kids(tree@).len(),
        forall|i: int| 0 <= i < r@.len() ==> (#[trigger] r@[i])@ == tr_kids(tree@)[i],
        forall|i: int| 0 <= i < r@.len() ==> decreases_to!(tree => #[trigger] r@[i]),
{
    let mut r: Vec<&Tree> = Vec::new();
    match tree {
        Tree::Con { fst, snd }
        | Tree::Dup { fst, snd }
        | Tree::Opr { fst, snd }
        | Tree::Swi { fst, snd } => {
            r.push(&**fst);
            r.push(&**snd);
        },
        _ => {},
    }
    r
}

/// A net: its root and its redexes. A redex may have priority.
#[derive(Debug, PartialEq, Eq)]
pub struct Net {
    pub root: Tree,
    pub rbag: Vec<(bool, Tree, Tree)>,
}

/// The mathematical content of a redex.
pub struct Redex {
    pub pri: bool,
    pub a: Tr,
    pub b: Tr,
}

/// The mathematical content of a net.
pub struct Nt {
    pub root: Tr,
    pub rbag: Seq<Redex>,
}

impl View for Net {
    type V = Nt;

    open spec fn view(&self) -> Nt {
        Nt {
            root: self.root@,
            rbag: Seq::new(
                self.rbag@.len(),
                |i: int| Redex { pri: self.rbag@[i].0, a: self.rbag@[i].1@, b: self.rbag@[i].2@ },
            ),
        }
    }
}

/// A program of named nets.
pub struct Book {
    pub defs: NameMap<Net>,
}

impl View for Book {
    type V = Map<Str, Nt>;

    open spec fn view(&self) -> Map<Str, Nt> {
        self.defs@
    }
}

} // verus!
