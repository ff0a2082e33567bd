//! Groups of functions that call each other.

use crate::fun::book::{Bk, Book};
use crate::fun::term;
use crate::fun::term::{Term, Tm};
use crate::name::{Name, Str};
use crate::name_graph;
use crate::name_graph::Deps;
use crate::name_map::{NameMap, NameSet};
use vstd::prelude::*;

verus! {

/// The name is that of a function whose type is inferred.
///
/// The types of constructors and unchecked functions are not inferred.
pub open spec fn is_inferred(bk: Bk, x: Str) -> bool {
    bk.defs.contains_key(x) && !bk.ctrs.contains_key(x) && bk.defs[x].check
}

/// A reference to the name is a reference to a function whose type is inferred.
pub open spec fn is_dep(bk: Bk, x: Str) -> bool {
    is_inferred(bk, x) && !bk.hvm_defs.contains_key(x)
}

/// The functions whose types are needed to infer that of a term.
pub open spec fn deps_in(t: Tm, bk: Bk) -> Set<Str> {
    Set::new(|x: Str| term::all_refs(t).contains(x) && is_dep(bk, x))
}

/// The functions whose types are needed for each function.
pub open spec fn deps_of(bk: Bk) -> Deps {
    Map::new(
        |x: Str| is_inferred(bk, x),
        |x: Str| deps_in(term::body_of(bk.defs[x]), bk),
    )
}

/// Everything that a term refers to is defined.
pub open spec fn refs_defined(bk: Bk, t: Tm) -> bool {
    forall|x: Str| #[trigger]
        term::all_refs(t).contains(x) ==> bk.ctrs.contains_key(x) || bk.hvm_defs.contains_key(x)
            || bk.defs.contains_key(x)
}

/// The functions whose types are inferred have one rule, and what they refer
/// to is defined.
pub open spec fn defs_ready(bk: Bk) -> bool {
    forall|x: Str| #[trigger]
        is_inferred(bk, x) ==> term::has_one_rule(bk.defs[x]) && refs_defined(
            bk,
            term::body_of(bk.defs[x]),
        )
}

/// Topologically ordered set of mutually recursive groups of functions.
pub struct RecGroups(pub Vec<Vec<Name>>);

impl View for RecGroups {
    type V = Seq<Seq<Str>>;

    open spec fn view(&self) -> Seq<Seq<Str>> {
        name_graph::lists(self.0@)
    }
}

/// The groups of functions of a program.
pub open spec fn rec_groups(bk: Bk) -> Seq<Seq<Str>> {
    choose|gs: Seq<Seq<Str>>| name_graph::is_groups(deps_of(bk), gs)
}

fn collect_dependencies(term: &Term, book: &Book, deps: &mut NameSet)
    requires
        refs_defined(book@, term@),
    ensures
        final(deps)@ == old(deps)@.union(deps_in(term@, book@)),
    decreases term,
{
    let ghost bk = book@;
    let ghost t = term@;
    if let Term::Ref { nam } = term {
        proof {
            assert(term::all_refs(t).contains(nam@));
        }
        if book.ctrs.contains_key(nam) || book.hvm_defs.contains_key(nam) || !book.defs.get(
            nam,
        ).unwrap().check {
            // Don't infer types for constructors or unchecked functions
        } else {
            deps.insert(nam.clone());
        }
    }
    let ghost mid = deps@;
    let kids = term.children();
    let n: usize = kids.len();
    let mut i: usize = 0;
    while i < n
        invariant
            i <= n,
            n == kids@.len(),
            bk == book@,
            t == term@,
            n == t.kids.len(),
            forall|j: int| 0 <= j < n ==> (#[trigger] kids@[j])@ == t.kids[j],
            forall|j: int| 0 <= j < n ==> decreases_to!(term => #[trigger] kids@[j]),
            refs_defined(bk, t),
            forall|x: Str| #[trigger]
                deps@.contains(x) <==> mid.contains(x) || exists|j: int|
                    0 <= j < i && deps_in(#[trigger] t.kids[j], bk).contains(x),
        decreases n - i,
    {
        let ghost before = deps@;
        proof {
            assert(kids@[i as int]@ == t.kids[i as int]);
            assert forall|x: Str| #[trigger] term::all_refs(t.kids[i as int]).contains(x) implies bk.ctrs.contains_key(
                x,
            ) || bk.hvm_defs.contains_key(x) || bk.defs.contains_key(x) by {
                assert(term::all_refs(t).contains(x));
            }
        }
        collect_dependencies(kids[i], book, deps);
        proof {
            assert forall|x: Str| #[trigger] deps@.contains(x) <==> mid.contains(x) || exists|j: int|
                0 <= j < i + 1 && deps_in(#[trigger] t.kids[j], bk).contains(x) by {
                if before.contains(x) && !mid.contains(x) {
                    let j = choose|j: int| 0 <= j < i && deps_in(#[trigger] t.kids[j], bk).contains(x);
                    assert(deps_in(t.kids[j], bk).contains(x));
                }
                if deps_in(t.kids[i as int], bk).contains(x) {
                    assert(deps_in(t.kids[i as int], bk).contains(x));
                }
            }
        }
        i += 1;
    }
    proof {
        assert forall|x: Str| deps@.contains(x) <==> old(deps)@.union(deps_in(t, bk)).contains(x) by {
            if deps@.contains(x) && !mid.contains(x) {
                let j = choose|j: int| 0 <= j < n && deps_in(#[trigger] t.kids[j], bk).contains(x);
                assert(term::all_refs(t).contains(x));
            }
            if deps_in(t, bk).contains(x) && t.head != term::Th::Ref(x) {
                let j = choose|j: int|
                    0 <= j < t.kids.len() && term::all_refs(#[trigger] t.kids[j]).contains(x);
                assert(deps_in(t.kids[j], bk).contains(x));
            }
        }
        assert(deps@ =~= old(deps)@.union(deps_in(t, bk)));
    }
}

impl RecGroups {
    /// The groups of functions that call each other, those that they call first.
    pub fn from_book(book: &Book) -> (r: RecGroups)
        requires
            defs_ready(book@),
        ensures
            name_graph::is_groups(deps_of(book@), r@),
            r@ == rec_groups(book@),
    {
        let ghost bk = book@;
        // Build the dependency graph
        let mut deps: NameMap<NameSet> = NameMap::new();
        let n: usize = book.defs.len();
        let ghost names = book.defs.names();
        let mut i: usize = 0;
        while i < n
            invariant
                i <= n,
                bk == book@,
                names == book.defs.names(),
                n == names.len(),
                names.to_set() == bk.defs.dom(),
                defs_ready(bk),
                forall|x: Str| #[trigger]
                    deps@.contains_key(x) <==> is_inferred(bk, x) && names.take(i as int).contains(x),
                forall|x: Str| #[trigger] deps@.contains_key(x) ==> deps@[x] == deps_of(bk)[x],
            decreases n - i,
        {
            let nam = book.defs.name_at(i);
            let def = book.defs.value_at(i);
            let ghost before = deps@;
            if book.ctrs.contains_key(nam) || !def.check {
                // Don't infer types for constructors or unchecked functions
            } else {
                assert(is_inferred(bk, nam@));
                let mut fn_deps = NameSet::new();
                collect_dependencies(&def.rule().body, book, &mut fn_deps);
                assert(fn_deps@ =~= deps_of(bk)[nam@]);
                deps.insert(nam.clone(), fn_deps);
            }
            proof {
                let (a, b) = (names.take(i as int), names.take(i + 1));
                assert forall|x: Str| #[trigger] deps@.contains_key(x) <==> is_inferred(bk, x) && b.contains(x) by {
                    if a.contains(x) {
                        let j = choose|j: int| 0 <= j < a.len() && a[j] == x;
                        assert(b[j] == x);
                    }
                    if b.contains(x) && x != nam@ {
                        let j = choose|j: int| 0 <= j < b.len() && b[j] == x;
                        assert(a[j] == x);
                    }
                    assert(b[i as int] == nam@);
                }
            }
            i += 1;
        }
        proof {
            assert(names.take(n as int) =~= names);
            assert forall|x: Str| deps@.contains_key(x) <==> deps_of(bk).contains_key(x) by {
                if is_inferred(bk, x) {
                    assert(names.to_set().contains(x));
                }
            }
            assert(deps@ =~= deps_of(bk));
        }
        let groups = name_graph::groups(&deps);
        proof {
            let gs = name_graph::lists(groups@);
            name_graph::law_groups_unique(deps_of(bk), gs, rec_groups(bk));
        }
        RecGroups(groups)
    }
}

} // verus!
