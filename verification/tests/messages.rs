//! The texts of messages.

use bend::messages::{
    both_text, expected_text, occurs_text, subst_text, subtype_text, unify_text,
};
use bend::name::Name;

#[test]
fn messages_of_type_errors() {
    assert_eq!(occurs_text("a", "a -> b"), " Variable 'a' occurs in 'a -> b'");
    assert_eq!(
        unify_text("(f x)", "u24", "f24", ""),
        "In (f x):\n  Can't unify 'u24' and 'f24'."
    );
    assert_eq!(
        unify_text("x", "a", "a -> b", &occurs_text("a", "a -> b")),
        "In x:\n  Can't unify 'a' and 'a -> b'. Variable 'a' occurs in 'a -> b'"
    );
    assert_eq!(
        both_text("a", "u24", "f24"),
        " Inferred type variable 'a' must be both 'u24' and 'f24'"
    );
    assert_eq!(
        expected_text("f24", "u24", ""),
        "Type Error: Expected function type 'f24' but found 'u24'."
    );
    assert_eq!(
        subtype_text("x -> y", "a -> a", &both_text("a", "x", "y")),
        "Type Error: Annotated type 'x -> y' is not a subtype of inferred type 'a -> a'. Inferred type variable 'a' must be both 'x' and 'y'"
    );
}

#[test]
fn text_of_a_substitution() {
    assert_eq!(subst_text(&vec![]), "Subst {\n}");
    let entries = vec![
        (Name::new("a".to_string()), "u24".to_string()),
        (Name::new("b".to_string()), "a -> a".to_string()),
    ];
    assert_eq!(subst_text(&entries), "Subst {\n  a => u24,\n  b => a -> a,\n}");
}
