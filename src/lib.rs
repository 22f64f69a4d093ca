//! A toy version-control store: a command grammar over text lines and a
//! branch table pointing into a shared history of immutable commits.
pub mod grammar;
pub mod interpreter;
pub mod store;
