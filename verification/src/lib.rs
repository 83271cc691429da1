//! A lexical environment / symbol table for a language front-end.
//!
//! An [`Environment`](environment::Environment) tracks variable bindings,
//! function overloads and algebraic-data-type constructor tables across
//! nested scopes, with shadowing, duplicate-declaration detection and
//! signature-based overload resolution.

pub mod assoc;
pub mod ast;
pub mod environment;
pub mod laws;
pub mod scope;
