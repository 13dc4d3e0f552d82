//! A small interpreter for parenthesised symbolic expressions: a lexer that
//! splits text into tokens, a recursive-descent parser that builds a syntax
//! tree, and a tree-walking evaluator with lexically scoped `let`.
//!
//! Integer arithmetic wraps around modulo 2^64, as `i64::wrapping_add` and
//! `i64::wrapping_mul` do.
pub mod eval;
pub mod parse;
pub mod render;
pub mod round_trip;
pub mod tokenize;

pub use eval::{eval, parse_eval, Env, EvalError, InterpretError, Procedure, Value};
pub use parse::{Atom, ParseSExprError, Parser, SExpr};
pub use tokenize::{scan_one_token, tokenize, Tokenizer};
