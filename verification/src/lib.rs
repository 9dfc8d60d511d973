//! A tree-walking evaluator for a minimal Pascal-like toy language: a single
//! `BEGIN ... END` block (possibly nested) terminated by a period, holding
//! semicolon-separated assignments whose right-hand sides are integer
//! arithmetic expressions with `+ - * /`, unary `+`/`-`, parentheses and
//! identifiers.
//!
//! The pipeline is lexer -> recursive-descent parser -> AST -> evaluator.
//! Every stage carries an exact functional specification: the lexer returns
//! the token that [`lexer::spec_next_token`] describes, the parser returns the
//! tree that [`parser::spec_parse`] describes, and the evaluator produces the
//! store that [`eval::spec_visit`] describes.

pub mod ast;
pub mod error;
pub mod eval;
pub mod lexer;
pub mod parser;
pub mod render;
pub mod token;
