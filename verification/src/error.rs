//! Structured failures: lexical, syntactic and runtime.
//!
//! Propagation is fail-fast: the first failure aborts the whole parse or
//! evaluation; no partial tree and no final store is handed out past it.

use vstd::prelude::*;
use crate::token::TokenKind;

verus! {

/// A failure of the pipeline, with enough context to be diagnosable.
#[derive(Debug)]
pub enum InterpError {
    /// Lexical failure: an unrecognized character `ch` at character position `pos`.
    LexBadChar { ch: char, pos: usize },
    /// Lexical failure: a `:` at character position `pos` not followed by `=`.
    LexBadAssign { pos: usize },
    /// Syntax failure: the current token's tag does not match what the grammar
    /// expects at this point.
    SyntaxUnexpected { expected: TokenKind, found: TokenKind },
    /// Syntax failure: an identifier follows a statement with no separator
    /// between them.
    SyntaxUnseparated,
    /// Syntax failure: no factor may start with a token of this tag.
    SyntaxBadFactor { found: TokenKind },
    /// Syntax failure: tokens remain after the terminating dot.
    SyntaxTrailing { found: TokenKind },
    /// Runtime failure: the named identifier was read before being assigned.
    RuntimeUndefined { name: String },
    /// Runtime failure: division by zero.
    RuntimeDivZero,
    /// Runtime failure: a malformed tree at statement or value position (an
    /// internal-consistency failure).
    RuntimeBadNode,
}

/// The mathematical value of a failure: positions as naturals, names as
/// sequences of characters.
pub enum ErrS {
    /// An unrecognized character.
    LexBadChar { ch: char, pos: nat },
    /// A `:` not followed by `=`.
    LexBadAssign { pos: nat },
    /// A token whose tag does not match the grammar's expectation.
    SyntaxUnexpected { expected: TokenKind, found: TokenKind },
    /// An identifier following a statement with no separator.
    SyntaxUnseparated,
    /// A token no factor may start with.
    SyntaxBadFactor { found: TokenKind },
    /// Tokens after the terminating dot.
    SyntaxTrailing { found: TokenKind },
    /// An identifier read before being assigned.
    RuntimeUndefined { name: Seq<char> },
    /// Division by zero.
    RuntimeDivZero,
    /// A malformed tree.
    RuntimeBadNode,
}

impl View for InterpError {
    type V = ErrS;

    open spec fn view(&self) -> ErrS {
        match self {
            InterpError::LexBadChar { ch, pos } => ErrS::LexBadChar { ch: *ch, pos: *pos as nat },
            InterpError::LexBadAssign { pos } => ErrS::LexBadAssign { pos: *pos as nat },
            InterpError::SyntaxUnexpected { expected, found } => (ErrS::SyntaxUnexpected {
                expected: *expected,
                found: *found,
            }),
            InterpError::SyntaxUnseparated => ErrS::SyntaxUnseparated,
            InterpError::SyntaxBadFactor { found } => ErrS::SyntaxBadFactor { found: *found },
            InterpError::SyntaxTrailing { found } => ErrS::SyntaxTrailing { found: *found },
            InterpError::RuntimeUndefined { name } => ErrS::RuntimeUndefined { name: name@ },
            InterpError::RuntimeDivZero => ErrS::RuntimeDivZero,
            InterpError::RuntimeBadNode => ErrS::RuntimeBadNode,
        }
    }
}

} // verus!
