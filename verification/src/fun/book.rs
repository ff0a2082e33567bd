//! The definitions of a program.

use crate::diagnostics::Diagnostics;
use crate::fun::term::{Definition, Dm, Source, Src};
use crate::fun::ty::{Ty, Type};
use crate::hvm::ast::{Net, Nt};
use crate::name;
use crate::name::{Name, Str};
use crate::name_map::NameMap;
use vstd::prelude::*;

verus! {

/// A field of a constructor.
#[derive(Debug, PartialEq, Eq)]
pub struct CtrField {
    pub nam: Name,
    pub rec: bool,
    pub typ: Type,
}

/// The mathematical content of a field.
pub struct Fm {
    pub nam: Str,
    pub rec: bool,
    pub typ: Ty,
}

impl View for CtrField {
    type V = Fm;

    open spec fn view(&self) -> Fm {
        Fm { nam: self.nam@, rec: self.rec, typ: self.typ@ }
    }
}

/// A constructor of an algebraic datatype.
#[derive(Debug, PartialEq, Eq)]
pub struct AdtCtr {
    pub name: Name,
    pub typ: Type,
    pub fields: Vec<CtrField>,
}

/// The mathematical content of a constructor.
pub struct Cm {
    pub name: Str,
    pub typ: Ty,
    pub fields: Seq<Fm>,
}

impl View for AdtCtr {
    type V = Cm;

    open spec fn view(&self) -> Cm {
        Cm {
            name: self.name@,
            typ: self.typ@,
            fields: Seq::new(self.fields@.len(), |i: int| self.fields@[i]@),
        }
    }
}

/// An algebraic datatype.
pub struct Adt {
    pub name: Name,
    pub vars: Vec<Name>,
    pub ctrs: NameMap<AdtCtr>,
}

/// The mathematical content of an algebraic datatype.
pub struct Am {
    pub name: Str,
    pub vars: Seq<Str>,
    pub ctrs: Map<Str, Cm>,
}

impl View for Adt {
    type V = Am;

    open spec fn view(&self) -> Am {
        Am { name: self.name@, vars: name::texts(self.vars@), ctrs: self.ctrs@ }
    }
}

/// A function that is written as an interaction net.
#[derive(Debug, PartialEq, Eq)]
pub struct HvmDefinition {
    pub name: Name,
    pub typ: Type,
    pub body: Net,
    pub source: Source,
}

/// The mathematical content of a function that is a net.
pub struct Hm {
    pub name: Str,
    pub typ: Ty,
    pub body: Nt,
    pub source: Src,
}

impl View for HvmDefinition {
    type V = Hm;

    open spec fn view(&self) -> Hm {
        Hm { name: self.name@, typ: self.typ@, body: self.body@, source: self.source@ }
    }
}

/// The representation of a program.
pub struct Book {
    /// The function definitions.
    pub defs: NameMap<Definition>,
    /// The function definitions that are interaction nets.
    pub hvm_defs: NameMap<HvmDefinition>,
    /// The algebraic datatypes.
    pub adts: NameMap<Adt>,
    /// The datatype of each constructor.
    pub ctrs: NameMap<Name>,
    /// The function where execution starts.
    pub entrypoint: Option<Name>,
}

/// The mathematical content of a program.
pub struct Bk {
    pub defs: Map<Str, Dm>,
    pub hvm_defs: Map<Str, Hm>,
    pub adts: Map<Str, Am>,
    pub ctrs: Map<Str, Str>,
    pub entrypoint: Option<Str>,
}

impl View for Book {
    type V = Bk;

    open spec fn view(&self) -> Bk {
        Bk {
            defs: self.defs@,
            hvm_defs: self.hvm_defs@,
            adts: self.adts@,
            ctrs: self.ctrs@,
            entrypoint: name::opt_name(self.entrypoint),
        }
    }
}

/// A program and what is to be said about it.
pub struct Ctx<'book> {
    pub book: &'book mut Book,
    pub info: Diagnostics,
}

} // verus!
