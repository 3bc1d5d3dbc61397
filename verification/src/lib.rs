//! A compiler for a small language of floating-point expressions.
//!
//! [`parser::parse`] reads a source text into an [`ast::Arena`], and
//! [`compiler::codegen`] compiles what it read to machine code.

pub mod ast;
pub mod backend;
pub mod compiler;
pub mod composition;
pub mod demand;
pub mod equivalence;
pub mod error;
pub mod evaluation;
pub mod expectation;
pub mod extent;
pub mod graft;
pub mod grammar;
pub mod ir;
pub mod lowering;
pub mod parser;
pub mod phrase;
pub mod printing;
pub mod program;
pub mod refusal;
pub mod scoping;
pub mod semantics;
pub mod spacing;
pub mod translate;
pub mod wording;

pub use vstd::hash_map::StringHashMap;

