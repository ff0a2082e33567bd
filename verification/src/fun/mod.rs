//! The functional core language.

pub mod book;
pub mod check;
pub mod model_laws;
pub mod term;
pub mod transform;
pub mod ty;
