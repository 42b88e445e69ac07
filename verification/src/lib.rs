//! Source locations, source tables, structured diagnostics, and the
//! scope-set / symbol-interning core of the karst front end.

pub mod span;
pub mod text;
pub mod search;
pub mod source_table;
pub mod diagnostic;
pub mod scope;
pub mod symbol;
pub mod phase;
