//! Optional Hindley-Milner-like type system.

pub mod annotation_laws;
pub mod following;
pub mod frame;
pub mod given_laws;
pub mod group_inference_laws;
pub mod group_laws;
pub mod growth;
pub mod infer;
pub mod inference;
pub mod inference_laws;
pub mod infer_state;
pub mod program_typing;
pub mod rec_groups;
pub mod scheme;
pub mod soundness;
pub mod specialize;
pub mod specialize_cases;
pub mod specialize_laws;
pub mod stored_types;
pub mod type_check;
pub mod typing;
pub mod unify;
pub mod unify_cases;
pub mod unify_laws;
