//! Errors and warnings about a program.

use crate::fun::check::infer_state::{Er, TypeError};
use crate::fun::check::specialize::{SpecializeError, Unfit};
use crate::fun::term::{Source, SourceKind, Src};
use crate::name::{Name, Str};
use vstd::prelude::*;

verus! {

#[derive(Clone, Copy, Debug, PartialEq, Eq, Structural)]
pub enum Severity {
    Allow,
    Warning,
    Error,
}

#[derive(Clone, Copy, Debug, PartialEq, Eq, Structural)]
pub enum WarningType {
    RecursionCycle,
}

/// How severe each type of warning is.
#[derive(Clone, Copy, Debug, PartialEq, Eq, Structural)]
pub struct DiagnosticsConfig {
    pub recursion_cycle: Severity,
}

/// What stands before each line of a list in a message.
pub const ERR_INDENT: &'static str = "  ";

/// What a diagnostic says.
#[derive(Debug, PartialEq, Eq)]
pub enum Message {
    Type(TypeError),
    Specialize(SpecializeError),
    /// Functions that call each other without end, as a list of cycles.
    RecursionCycles(String),
}

/// The mathematical content of a message.
pub enum Msg {
    Type(Er),
    Specialize(Unfit),
    RecursionCycles(Str),
}

impl View for Message {
    type V = Msg;

    open spec fn view(&self) -> Msg {
        match *self {
            Message::Type(e) => Msg::Type(e@),
            Message::Specialize(e) => Msg::Specialize(e@),
            Message::RecursionCycles(s) => Msg::RecursionCycles(s@),
        }
    }
}

/// What a diagnostic is about.
#[derive(Debug, PartialEq, Eq)]
pub enum DiagnosticOrigin {
    Book,
    Function(Name),
}

/// The mathematical content of an origin.
pub enum Org {
    Book,
    Function(Str),
}

impl View for DiagnosticOrigin {
    type V = Org;

    open spec fn view(&self) -> Org {
        match *self {
            DiagnosticOrigin::Book => Org::Book,
            DiagnosticOrigin::Function(x) => Org::Function(x@),
        }
    }
}

#[derive(Debug, PartialEq, Eq)]
pub struct Diagnostic {
    pub message: Message,
    pub severity: Severity,
    pub origin: DiagnosticOrigin,
    pub source: Source,
}

/// The mathematical content of a diagnostic.
pub struct Diag {
    pub message: Msg,
    pub severity: Severity,
    pub origin: Org,
    pub source: Src,
}

impl View for Diagnostic {
    type V = Diag;

    open spec fn view(&self) -> Diag {
        Diag {
            message: self.message@,
            severity: self.severity,
            origin: self.origin@,
            source: self.source@,
        }
    }
}

/// The diagnostics so far, in the order in which they came.
#[derive(Debug, PartialEq, Eq)]
pub struct Diagnostics {
    pub items: Vec<Diagnostic>,
    pub config: DiagnosticsConfig,
}

/// The mathematical content of diagnostics.
pub struct Diags {
    pub items: Seq<Diag>,
    pub config: DiagnosticsConfig,
}

impl View for Diagnostics {
    type V = Diags;

    open spec fn view(&self) -> Diags {
        Diags {
            items: Seq::new(self.items@.len(), |i: int| self.items@[i]@),
            config: self.config,
        }
    }
}

pub open spec fn default_config() -> DiagnosticsConfig {
    DiagnosticsConfig { recursion_cycle: Severity::Error }
}

/// No diagnostics, with the default severities.
pub open spec fn no_diagnostics() -> Diags {
    Diags { items: Seq::empty(), config: default_config() }
}

/// The source of what has none.
pub open spec fn unknown_source() -> Src {
    Src { file: None, span: None, kind: SourceKind::Unknown }
}

/// The diagnostics with one more.
pub open spec fn with_item(ds: Diags, d: Diag) -> Diags {
    Diags { items: ds.items.push(d), config: ds.config }
}

/// An error in a function.
pub open spec fn function_error(message: Msg, nam: Str, source: Src) -> Diag {
    Diag { message, severity: Severity::Error, origin: Org::Function(nam), source }
}

/// An error in the book as a whole, and nothing else.
pub open spec fn only_error(message: Msg) -> Diags {
    with_item(
        no_diagnostics(),
        Diag { message, severity: Severity::Error, origin: Org::Book, source: unknown_source() },
    )
}

/// Some diagnostic is an error.
pub open spec fn any_error(ds: Diags) -> bool {
    exists|i: int| 0 <= i < ds.items.len() && (#[trigger] ds.items[i]).severity == Severity::Error
}

impl Source {
    /// The source of what has none.
    pub fn unknown() -> (r: Self)
        ensures
            r@ == unknown_source(),
            r@.file is None,
            r@.span is None,
            r@.kind == SourceKind::Unknown,
    {
        Source { file: None, span: None, kind: SourceKind::Unknown }
    }
}

impl Diagnostics {
    pub fn new(config: DiagnosticsConfig) -> (r: Self)
        ensures
            r@ == (Diags { items: Seq::empty(), config }),
    {
        let r = Diagnostics { items: Vec::new(), config };
        assert(r@.items =~= Seq::empty());
        r
    }

    /// No diagnostics, with the default severities.
    pub fn empty() -> (r: Self)
        ensures
            r@ == no_diagnostics(),
            r@.items.len() == 0,
            r@.config.recursion_cycle == Severity::Error,
    {
        Diagnostics::new(DiagnosticsConfig { recursion_cycle: Severity::Error })
    }

    fn add_diagnostic(&mut self, d: Diagnostic)
        ensures
            final(self)@ == with_item(old(self)@, d@),
            final(self)@.items == old(self)@.items.push(d@),
            final(self)@.config == old(self)@.config,
    {
        self.items.push(d);
        assert(self@.items =~= old(self)@.items.push(d@));
    }

    pub fn add_function_error(&mut self, message: Message, nam: Name, source: Source)
        ensures
            final(self)@ == with_item(old(self)@, function_error(message@, nam@, source@)),
            final(self)@.config == old(self)@.config,
            final(self)@.items == old(self)@.items.push(final(self)@.items.last()),
            final(self)@.items.last().message == message@,
            final(self)@.items.last().severity == Severity::Error,
            final(self)@.items.last().origin == Org::Function(nam@),
            final(self)@.items.last().source == source@,
    {
        self.add_diagnostic(
            Diagnostic {
                message,
                severity: Severity::Error,
                origin: DiagnosticOrigin::Function(nam),
                source,
            },
        );
    }

    /// Adds a warning about the book, as severe as the configuration says.
    pub fn add_book_warning(&mut self, message: Message, warn_type: WarningType)
        ensures
            final(self)@ == with_item(
                old(self)@,
                Diag {
                    message: message@,
                    severity: match warn_type {
                        WarningType::RecursionCycle => old(self)@.config.recursion_cycle,
                    },
                    origin: Org::Book,
                    source: unknown_source(),
                },
            ),
            final(self)@.config == old(self)@.config,
            final(self)@.items == old(self)@.items.push(final(self)@.items.last()),
            final(self)@.items.last().message == message@,
            final(self)@.items.last().severity == old(self)@.config.recursion_cycle,
            final(self)@.items.last().origin == Org::Book,
    {
        let severity = match warn_type {
            WarningType::RecursionCycle => self.config.recursion_cycle,
        };
        self.add_diagnostic(
            Diagnostic { message, severity, origin: DiagnosticOrigin::Book, source: Source::unknown() },
        );
    }

    pub fn has_errors(&self) -> (r: bool)
        ensures
            r == any_error(self@),
            r == exists|i: int|
                0 <= i < self@.items.len() && (#[trigger] self@.items[i]).severity
                    == Severity::Error,
    {
        let n: usize = self.items.len();
        let mut i: usize = 0;
        while i < n
            invariant
                i <= n,
                n == self.items@.len(),
                forall|j: int| 0 <= j < i ==> (#[trigger] self@.items[j]).severity != Severity::Error,
            decreases n - i,
        {
            assert(self@.items[i as int] == self.items@[i as int]@);
            if self.items[i].severity == Severity::Error {
                return true;
            }
            i += 1;
        }
        false
    }

    /// Hands the diagnostics over and leaves none.
    pub fn take(&mut self) -> (r: Self)
        ensures
            r@ == old(self)@,
            final(self)@ == no_diagnostics(),
            final(self)@.items.len() == 0,
    {
        let mut r = Diagnostics::empty();
        std::mem::swap(&mut r, self);
        r
    }

    /// Fails with the diagnostics if one of them is an error.
    pub fn fatal(&mut self) -> (r: Result<(), Diagnostics>)
        ensures
            match r {
                Ok(()) => !any_error(old(self)@) && final(self)@ == old(self)@,
                Err(ds) => {
                    &&& any_error(old(self)@)
                    &&& ds@ == old(self)@
                    &&& final(self)@ == no_diagnostics()
                },
            },
            r is Err <==> exists|i: int|
                0 <= i < old(self)@.items.len() && (#[trigger] old(self)@.items[i]).severity
                    == Severity::Error,
    {
        if self.has_errors() {
            Err(self.take())
        } else {
            Ok(())
        }
    }

    /// One error in the book as a whole.
    pub fn from_error(message: Message) -> (r: Self)
        ensures
            r@ == only_error(message@),
            r@.items.len() == 1,
            r@.items[0].message == message@,
            r@.items[0].severity == Severity::Error,
            r@.items[0].origin == Org::Book,
    {
        let mut r = Diagnostics::empty();
        r.add_diagnostic(
            Diagnostic {
                message,
                severity: Severity::Error,
                origin: DiagnosticOrigin::Book,
                source: Source::unknown(),
            },
        );
        r
    }
}

} // verus!
