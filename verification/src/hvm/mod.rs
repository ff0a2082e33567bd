//! Interaction nets and the checks on them.

pub mod add_recursive_priority;
pub mod ast;
pub mod check_laws;
pub mod cycle_laws;
pub mod cycle_order_laws;
pub mod cycle_search;
pub mod cycle_text;
pub mod cycle_text_laws;
pub mod mutual_recursion;
pub mod priority_laws;
