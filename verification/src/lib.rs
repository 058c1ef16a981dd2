//! A verified interpreter for a minimal eight-instruction pointer language.
//!
//! Source text is parsed into a tree of raw instructions ([`ast::BFProgram`]),
//! rewritten by a peephole optimizer into a coarser form
//! ([`ast::BFPProgram`]), and either form is executed against a fixed-size
//! byte tape ([`machine::Machine`]).  The semantics of both forms are given
//! by fuel-indexed specification interpreters in [`sem`], and the central
//! theorem — that the optimizer preserves the behaviour of every
//! finite-running program — is proved in [`equiv`].

pub mod ast;
pub mod sem;
pub mod machine;
pub mod parse;
pub mod compile;
pub mod equiv;
