//! Tokens, their tags, and their mathematical values.

use vstd::prelude::*;

verus! {

/// A lexical token: a tag together with its payload.
#[derive(Debug)]
pub enum Token {
    /// End of input.
    Eof,
    /// Binary additive operator, carrying `'+'` or `'-'`.
    Op1(char),
    /// Binary multiplicative operator, carrying `'*'` or `'/'`.
    Op2(char),
    /// Left parenthesis.
    Lp,
    /// Right parenthesis.
    Rp,
    /// Unsigned integer literal.
    Integer(u64),
    /// Unary operator marker, carrying `'+'` or `'-'`.
    Unary(char),
    /// The reserved word `BEGIN`.
    Begin,
    /// The reserved word `END`.
    End,
    /// The program-terminating dot.
    Dot,
    /// The assignment operator `:=`.
    Assign,
    /// The statement separator `;`.
    Semi,
    /// An identifier, carrying its name.
    Id(String),
    /// Synthetic placeholder tag used for grouping nodes.
    Other,
}

/// The mathematical value of a token: the identifier payload is a sequence of
/// characters rather than a `String`.
#[verifier::ext_equal]
pub enum TokenS {
    /// End of input.
    Eof,
    /// Binary additive operator.
    Op1(char),
    /// Binary multiplicative operator.
    Op2(char),
    /// Left parenthesis.
    Lp,
    /// Right parenthesis.
    Rp,
    /// Unsigned integer literal.
    Integer(u64),
    /// Unary operator marker.
    Unary(char),
    /// The reserved word `BEGIN`.
    Begin,
    /// The reserved word `END`.
    End,
    /// The program-terminating dot.
    Dot,
    /// The assignment operator.
    Assign,
    /// The statement separator.
    Semi,
    /// An identifier with its name.
    Id(Seq<char>),
    /// Synthetic placeholder tag.
    Other,
}

impl View for Token {
    type V = TokenS;

    open spec fn view(&self) -> TokenS {
        match self {
            Token::Eof => TokenS::Eof,
            Token::Op1(c) => TokenS::Op1(*c),
            Token::Op2(c) => TokenS::Op2(*c),
            Token::Lp => TokenS::Lp,
            Token::Rp => TokenS::Rp,
            Token::Integer(n) => TokenS::Integer(*n),
            Token::Unary(c) => TokenS::Unary(*c),
            Token::Begin => TokenS::Begin,
            Token::End => TokenS::End,
            Token::Dot => TokenS::Dot,
            Token::Assign => TokenS::Assign,
            Token::Semi => TokenS::Semi,
            Token::Id(s) => TokenS::Id(s@),
            Token::Other => TokenS::Other,
        }
    }
}

/// A token's tag alone.  Grammar dispatch compares tags, never payloads, so
/// two differently-valued integer literals count as the same kind of token.
#[derive(Clone, Copy, PartialEq, Eq, Structural, Debug)]
pub enum TokenKind {
    /// End of input.
    Eof,
    /// Binary additive operator.
    Op1,
    /// Binary multiplicative operator.
    Op2,
    /// Left parenthesis.
    Lp,
    /// Right parenthesis.
    Rp,
    /// Unsigned integer literal.
    Integer,
    /// Unary operator marker.
    Unary,
    /// The reserved word `BEGIN`.
    Begin,
    /// The reserved word `END`.
    End,
    /// The program-terminating dot.
    Dot,
    /// The assignment operator.
    Assign,
    /// The statement separator.
    Semi,
    /// An identifier.
    Id,
    /// Synthetic placeholder tag.
    Other,
}

/// The tag of a token value.
pub open spec fn kind_of(t: TokenS) -> TokenKind {
    match t {
        TokenS::Eof => TokenKind::Eof,
        TokenS::Op1(_) => TokenKind::Op1,
        TokenS::Op2(_) => TokenKind::Op2,
        TokenS::Lp => TokenKind::Lp,
        TokenS::Rp => TokenKind::Rp,
        TokenS::Integer(_) => TokenKind::Integer,
        TokenS::Unary(_) => TokenKind::Unary,
        TokenS::Begin => TokenKind::Begin,
        TokenS::End => TokenKind::End,
        TokenS::Dot => TokenKind::Dot,
        TokenS::Assign => TokenKind::Assign,
        TokenS::Semi => TokenKind::Semi,
        TokenS::Id(_) => TokenKind::Id,
        TokenS::Other => TokenKind::Other,
    }
}

/// A token as the lexer hands it out: operator payloads are among the
/// recognized characters, and the unary marker arises only in trees the
/// parser builds, never from the lexer.
pub open spec fn lexed_token(t: TokenS) -> bool {
    match t {
        TokenS::Op1(c) => c == '+' || c == '-',
        TokenS::Op2(c) => c == '*' || c == '/',
        TokenS::Unary(_) => false,
        _ => true,
    }
}

impl Token {
    /// The token's tag.
    pub fn kind(&self) -> (k: TokenKind)
        ensures
            k == kind_of(self@),
    {
        match self {
            Token::Eof => TokenKind::Eof,
            Token::Op1(_) => TokenKind::Op1,
            Token::Op2(_) => TokenKind::Op2,
            Token::Lp => TokenKind::Lp,
            Token::Rp => TokenKind::Rp,
            Token::Integer(_) => TokenKind::Integer,
            Token::Unary(_) => TokenKind::Unary,
            Token::Begin => TokenKind::Begin,
            Token::End => TokenKind::End,
            Token::Dot => TokenKind::Dot,
            Token::Assign => TokenKind::Assign,
            Token::Semi => TokenKind::Semi,
            Token::Id(_) => TokenKind::Id,
            Token::Other => TokenKind::Other,
        }
    }

    /// An equal copy of the token.
    pub fn dup(&self) -> (t: Token)
        ensures
            t == *self,
    {
        match self {
            Token::Eof => Token::Eof,
            Token::Op1(c) => Token::Op1(*c),
            Token::Op2(c) => Token::Op2(*c),
            Token::Lp => Token::Lp,
            Token::Rp => Token::Rp,
            Token::Integer(n) => Token::Integer(*n),
            Token::Unary(c) => Token::Unary(*c),
            Token::Begin => Token::Begin,
            Token::End => Token::End,
            Token::Dot => Token::Dot,
            Token::Assign => Token::Assign,
            Token::Semi => Token::Semi,
            Token::Id(s) => Token::Id(s.clone()),
            Token::Other => Token::Other,
        }
    }
}

} // verus!
