//! Transformations of terms.

pub mod extracted_laws;
pub mod facts;
pub mod facts_laws;
pub mod float_children;
pub mod float_combinators;
pub mod float_laws;
pub mod float_rules;
pub mod safe_laws;
pub mod safety;
pub mod safety_laws;
pub mod settled_laws;
pub mod trimmed_laws;
