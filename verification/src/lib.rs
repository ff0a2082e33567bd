//! Verified compiler passes over functional terms and interaction nets.

pub mod diagnostics;
pub mod fun;
pub mod group_order_laws;
pub mod hvm;
pub mod indexed;
pub mod messages;
pub mod name;
pub mod name_graph;
pub mod name_laws;
pub mod name_map;
pub mod scc;
pub mod text;
