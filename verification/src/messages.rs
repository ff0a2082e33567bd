//! The texts of messages, given the texts of the types and terms in them.

use crate::name::{Name, Str};
use vstd::prelude::*;

verus! {

/// What is added to a message when a variable occurs in the type that it would
/// have to be.
pub open spec fn occurs_message(var: Str, typ: Str) -> Str {
    " Variable '"@ + var + "' occurs in '"@ + typ + "'"@
}

/// The message of two types in a term that do not unify.
pub open spec fn unify_message(ctx: Str, left: Str, right: Str, cause: Str) -> Str {
    "In "@ + ctx + ":\n  Can't unify '"@ + left + "' and '"@ + right + "'."@ + cause
}

/// What is added to a message when a variable would have to be two types.
pub open spec fn both_message(var: Str, old_typ: Str, new_typ: Str) -> Str {
    " Inferred type variable '"@ + var + "' must be both '"@ + old_typ + "' and '"@ + new_typ
        + "'"@
}

/// The message of an annotation that does not unify with the inferred type.
pub open spec fn expected_message(ann: Str, inf: Str, cause: Str) -> Str {
    "Type Error: Expected function type '"@ + ann + "' but found '"@ + inf + "'."@ + cause
}

/// The message of an annotation that the inferred type is not general enough for.
pub open spec fn subtype_message(ann: Str, inf: Str, cause: Str) -> Str {
    "Type Error: Annotated type '"@ + ann + "' is not a subtype of inferred type '"@ + inf + "'."@
        + cause
}

/// The lines of a substitution, given the variables and the texts of the types.
pub open spec fn subst_lines(entries: Seq<(Str, Str)>) -> Str
    decreases entries.len(),
{
    if entries.len() == 0 {
        Seq::empty()
    } else {
        subst_lines(entries.drop_last()) + "  "@ + entries.last().0 + " => "@ + entries.last().1
            + ",\n"@
    }
}

/// The text of a substitution.
pub open spec fn subst_message(entries: Seq<(Str, Str)>) -> Str {
    "Subst {\n"@ + subst_lines(entries) + "}"@
}

/// What is added to a message when a variable occurs in the type that it would
/// have to be.
pub fn occurs_text(var: &str, typ: &str) -> (r: String)
    ensures
        r@ == occurs_message(var@, typ@),
{
    let mut r = String::new();
    r.append(" Variable '");
    r.append(var);
    r.append("' occurs in '");
    r.append(typ);
    r.append("'");
    assert(r@ =~= occurs_message(var@, typ@));
    r
}

/// The message of two types in a term that do not unify.
pub fn unify_text(ctx: &str, left: &str, right: &str, cause: &str) -> (r: String)
    ensures
        r@ == unify_message(ctx@, left@, right@, cause@),
{
    let mut r = String::new();
    r.append("In ");
    r.append(ctx);
    r.append(":\n  Can't unify '");
    r.append(left);
    r.append("' and '");
    r.append(right);
    r.append("'.");
    r.append(cause);
    assert(r@ =~= unify_message(ctx@, left@, right@, cause@));
    r
}

/// What is added to a message when a variable would have to be two types.
pub fn both_text(var: &str, old_typ: &str, new_typ: &str) -> (r: String)
    ensures
        r@ == both_message(var@, old_typ@, new_typ@),
{
    let mut r = String::new();
    r.append(" Inferred type variable '");
    r.append(var);
    r.append("' must be both '");
    r.append(old_typ);
    r.append("' and '");
    r.append(new_typ);
    r.append("'");
    assert(r@ =~= both_message(var@, old_typ@, new_typ@));
    r
}

/// The message of an annotation that does not unify with the inferred type.
pub fn expected_text(ann: &str, inf: &str, cause: &str) -> (r: String)
    ensures
        r@ == expected_message(ann@, inf@, cause@),
{
    let mut r = String::new();
    r.append("Type Error: Expected function type '");
    r.append(ann);
    r.append("' but found '");
    r.append(inf);
    r.append("'.");
    r.append(cause);
    assert(r@ =~= expected_message(ann@, inf@, cause@));
    r
}

/// The message of an annotation that the inferred type is not general enough for.
pub fn subtype_text(ann: &str, inf: &str, cause: &str) -> (r: String)
    ensures
        r@ == subtype_message(ann@, inf@, cause@),
{
    let mut r = String::new();
    r.append("Type Error: Annotated type '");
    r.append(ann);
    r.append("' is not a subtype of inferred type '");
    r.append(inf);
    r.append("'.");
    r.append(cause);
    assert(r@ =~= subtype_message(ann@, inf@, cause@));
    r
}

/// The contents of variables and texts.
pub open spec fn entry_texts(entries: Seq<(Name, String)>) -> Seq<(Str, Str)> {
    Seq::new(entries.len(), |i: int| (entries[i].0@, entries[i].1@))
}

/// The text of a substitution, given the variables and the texts of the types.
pub fn subst_text(entries: &Vec<(Name, String)>) -> (r: String)
    ensures
        r@ == subst_message(entry_texts(entries@)),
{
    let ghost es = entry_texts(entries@);
    let n: usize = entries.len();
    let mut r = String::new();
    r.append("Subst {\n");
    let mut i: usize = 0;
    proof {
        assert(es.take(0) =~= Seq::empty());
        assert(r@ =~= "Subst {\n"@ + subst_lines(es.take(0)));
    }
    while i < n
        invariant
            i <= n,
            n == entries@.len(),
            es == entry_texts(entries@),
            r@ == "Subst {\n"@ + subst_lines(es.take(i as int)),
        decreases n - i,
    {
        let ghost before = r@;
        r.append("  ");
        r.append(entries[i].0.0.as_str());
        r.append(" => ");
        r.append(entries[i].1.as_str());
        r.append(",\n");
        proof {
            assert(es.take(i + 1).drop_last() =~= es.take(i as int));
            assert(es.take(i + 1).last() == es[i as int]);
            assert(r@ =~= "Subst {\n"@ + subst_lines(es.take(i + 1)));
        }
        i += 1;
    }
    assert(es.take(n as int) =~= es);
    r.append("}");
    assert(r@ =~= subst_message(es));
    r
}

} // verus!
