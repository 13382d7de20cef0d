//! A language-agnostic core that turns a concrete-syntax-tree query's captures
//! into a typed, navigable abstract syntax tree, keeps that tree coherent
//! under incremental edits, and dispatches language-server-style requests
//! (document symbols, hover, semantic tokens, ...) through it.
//!
//! Capabilities are declared per node type as closed records of parameters
//! (a name field, a token type, a hover prefix, ...) rather than as
//! user-supplied callbacks; semantic checks, whose rules belong to the host
//! language, are driven by host-computed outcomes per queue entry.

pub mod builder;
pub mod capabilities;
pub mod comment;
pub mod cst;
pub mod diag;
pub mod laws;
pub mod position;
pub mod range;
pub mod resolve;
pub mod schema;
pub mod symbol;
pub mod text;
pub mod update;
pub mod workspace;
