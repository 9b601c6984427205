//! A minimal relational query engine: a small SQL-like query language with a
//! hand-written parser, a binder that resolves column names to positional
//! addresses, and a brute-force join engine driven by a mixed-radix
//! combination generator, evaluating filters under a three-valued logic.

pub mod ast;
pub mod bind;
pub mod eval;
pub mod index_comb;
pub mod join;
pub mod lexer;
pub mod parser;
pub mod render;
pub mod roundtrip;
pub mod strutil;
pub mod tables;
