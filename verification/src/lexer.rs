//! Lexical analysis: classifying the character at the cursor into exactly one
//! token per request.
//!
//! [`spec_next_token`] is the functional specification: it says, for every
//! cursor position, which token is produced and where the cursor lands, or
//! which lexical failure occurs.  [`Interpreter::get_next_token`] returns
//! exactly that.

use vstd::prelude::*;
use vstd::string::{StrSliceExecFns, StringExecFns};
use crate::error::{ErrS, InterpError};
use crate::token::{lexed_token, Token, TokenS};

verus! {

/// A letter, as the keyword and identifier rules understand it.
pub open spec fn is_letter(c: char) -> bool {
    ('a' as u32 <= c as u32 && c as u32 <= 'z' as u32) || ('A' as u32 <= c as u32 && c as u32
        <= 'Z' as u32)
}

/// A decimal digit.
pub open spec fn is_digit(c: char) -> bool {
    '0' as u32 <= c as u32 && c as u32 <= '9' as u32
}

/// A letter or a digit: what may continue an identifier.
pub open spec fn is_alnum(c: char) -> bool {
    is_letter(c) || is_digit(c)
}

/// Whitespace: space or newline, never a token of its own.
pub open spec fn is_space(c: char) -> bool {
    c == ' ' || c == '\n'
}

/// The numeric value of a digit character.
pub open spec fn digit_val(c: char) -> u64
    recommends
        is_digit(c),
{
    (c as u32 - '0' as u32) as u64
}

/// The cursor after skipping the maximal run of whitespace at `i`.
pub open spec fn skip_ws(text: Seq<char>, i: nat) -> nat
    decreases text.len() - i,
    when i <= text.len()
{
    if i < text.len() && is_space(text[i as int]) {
        skip_ws(text, i + 1)
    } else {
        i
    }
}

/// The end of the maximal run of letters and digits starting at `i`.
pub open spec fn scan_run_end(text: Seq<char>, i: nat) -> nat
    decreases text.len() - i,
    when i <= text.len()
{
    if i < text.len() && is_alnum(text[i as int]) {
        scan_run_end(text, i + 1)
    } else {
        i
    }
}

/// The end of the maximal run of digits starting at `i`.
pub open spec fn scan_digits_end(text: Seq<char>, i: nat) -> nat
    decreases text.len() - i,
    when i <= text.len()
{
    if i < text.len() && is_digit(text[i as int]) {
        scan_digits_end(text, i + 1)
    } else {
        i
    }
}

/// The value of the digit run `text[i..j)`, accumulated left to right with
/// 64-bit wrap-around (the scan does no overflow checking beyond the store's
/// width).
pub open spec fn digits_value(text: Seq<char>, i: nat, j: nat) -> u64
    decreases j - i,
    when i <= j
{
    if i < j {
        vstd::wrapping::u64_specs::wrapping_add(
            vstd::wrapping::u64_specs::wrapping_mul(digits_value(text, i, (j - 1) as nat), 10),
            digit_val(text[j - 1]),
        )
    } else {
        0
    }
}

/// The reserved word `BEGIN`.
pub open spec fn keyword_begin() -> Seq<char> {
    seq!['B', 'E', 'G', 'I', 'N']
}

/// The reserved word `END`.
pub open spec fn keyword_end() -> Seq<char> {
    seq!['E', 'N', 'D']
}

/// The token a scanned letter/digit run `w` stands for: one of the two
/// reserved words, matched exactly, or an identifier carrying `w`.
pub open spec fn word_token(w: Seq<char>) -> TokenS {
    if w == keyword_begin() {
        TokenS::Begin
    } else if w == keyword_end() {
        TokenS::End
    } else {
        TokenS::Id(w)
    }
}

/// One step of the lexer: either a token together with the cursor position
/// after it, or a lexical failure.
pub enum LexOut {
    /// A token was produced; `end` is the cursor after its last character.
    Next { tok: TokenS, end: nat },
    /// A lexical failure.
    Fail { err: ErrS },
}

/// What the lexer produces from cursor position `i`: skip whitespace, then
/// classify the character at the cursor, in the priority order of the rules.
pub open spec fn spec_next_token(text: Seq<char>, i: nat) -> LexOut
    recommends
        i <= text.len(),
{
    let k = skip_ws(text, i);
    if k >= text.len() {
        LexOut::Next { tok: TokenS::Eof, end: k }
    } else {
        let c = text[k as int];
        if is_letter(c) {
            let j = scan_run_end(text, k);
            LexOut::Next { tok: word_token(text.subrange(k as int, j as int)), end: j }
        } else if is_digit(c) {
            let j = scan_digits_end(text, k);
            LexOut::Next { tok: TokenS::Integer(digits_value(text, k, j)), end: j }
        } else if c == ':' {
            if k + 1 < text.len() && text[k as int + 1] == '=' {
                LexOut::Next { tok: TokenS::Assign, end: k + 2 }
            } else {
                LexOut::Fail { err: ErrS::LexBadAssign { pos: k } }
            }
        } else if c == ';' {
            LexOut::Next { tok: TokenS::Semi, end: k + 1 }
        } else if c == '.' {
            LexOut::Next { tok: TokenS::Dot, end: k + 1 }
        } else if c == '+' || c == '-' {
            LexOut::Next { tok: TokenS::Op1(c), end: k + 1 }
        } else if c == '*' || c == '/' {
            LexOut::Next { tok: TokenS::Op2(c), end: k + 1 }
        } else if c == '(' {
            LexOut::Next { tok: TokenS::Lp, end: k + 1 }
        } else if c == ')' {
            LexOut::Next { tok: TokenS::Rp, end: k + 1 }
        } else {
            LexOut::Fail { err: ErrS::LexBadChar { ch: c, pos: k } }
        }
    }
}

/// Skipping whitespace never moves the cursor backwards nor past the end.
pub proof fn lemma_skip_ws_bounds(text: Seq<char>, i: nat)
    requires
        i <= text.len(),
    ensures
        i <= skip_ws(text, i) <= text.len(),
    decreases text.len() - i,
{
    if i < text.len() && is_space(text[i as int]) {
        lemma_skip_ws_bounds(text, i + 1);
    }
}

/// A letter/digit run starting on a letter or digit ends past it and within
/// the text.
pub proof fn lemma_scan_run_bounds(text: Seq<char>, i: nat)
    requires
        i <= text.len(),
    ensures
        i <= scan_run_end(text, i) <= text.len(),
    decreases text.len() - i,
{
    if i < text.len() && is_alnum(text[i as int]) {
        lemma_scan_run_bounds(text, i + 1);
    }
}

/// A digit run ends within the text and not before its start.
pub proof fn lemma_scan_digits_bounds(text: Seq<char>, i: nat)
    requires
        i <= text.len(),
    ensures
        i <= scan_digits_end(text, i) <= text.len(),
    decreases text.len() - i,
{
    if i < text.len() && is_digit(text[i as int]) {
        lemma_scan_digits_bounds(text, i + 1);
    }
}

/// The lexer only moves forward: a produced token ends at or after the start
/// position, within the text, and strictly after the start position unless it
/// is the end-of-input marker.
pub proof fn lemma_next_token_bounds(text: Seq<char>, i: nat)
    requires
        i <= text.len(),
    ensures
        match spec_next_token(text, i) {
            LexOut::Next { tok, end } => i <= end <= text.len() && (tok != TokenS::Eof ==> end
                > i),
            LexOut::Fail { err } => true,
        },
{
    lemma_skip_ws_bounds(text, i);
    let k = skip_ws(text, i);
    if k < text.len() {
        let c = text[k as int];
        if is_letter(c) {
            lemma_scan_run_bounds(text, k + 1);
        } else if is_digit(c) {
            lemma_scan_digits_bounds(text, k + 1);
        }
    }
}

/// Every token the lexer produces carries a recognized payload.
pub proof fn lemma_next_token_lexed(text: Seq<char>, i: nat)
    requires
        i <= text.len(),
    ensures
        match spec_next_token(text, i) {
            LexOut::Next { tok, end } => lexed_token(tok),
            LexOut::Fail { err } => true,
        },
{
}

/// The interpreter/lexer state: the full source, a cursor into it (counted in
/// characters), and the most recently produced token, which serves as the one
/// token of lookahead.
#[derive(Debug)]
pub struct Interpreter {
    /// The source text.
    pub text: String,
    /// The current lookahead token.
    pub current_token: Token,
    /// The cursor: the character position just past the lookahead token.
    pub idx: usize,
}

impl Interpreter {
    /// Well-formedness: the cursor stays within the source.
    pub open spec fn inv(&self) -> bool {
        self.idx <= self.text@.len()
    }

    /// Construct an interpreter over a source string and prime the first
    /// lookahead token; a lexical failure in that first token is reported at
    /// once.
    pub fn from(s: &String) -> (r: Result<Interpreter, InterpError>)
        ensures
            match spec_next_token(s@, 0) {
                LexOut::Next { tok, end } => match r {
                    Ok(it) => it.text@ == s@ && it.current_token@ == tok && it.idx as nat == end
                        && it.inv(),
                    Err(_) => false,
                },
                LexOut::Fail { err } => match r {
                    Ok(_) => false,
                    Err(e) => e@ == err,
                },
            },
    {
        let mut a = Interpreter { text: s.clone(), current_token: Token::Eof, idx: 0 };
        match a.get_next_token() {
            Ok(_) => Ok(a),
            Err(e) => Err(e),
        }
    }

    /// Scan the maximal run of letters and digits at the cursor and classify
    /// it: a reserved word or an identifier.
    pub fn _id(&mut self) -> (t: Token)
        requires
            old(self).inv(),
        ensures
            final(self).text == old(self).text,
            final(self).current_token == old(self).current_token,
            final(self).inv(),
            final(self).idx as nat == scan_run_end(old(self).text@, old(self).idx as nat),
            t@ == word_token(old(self).text@.subrange(old(self).idx as int, final(self).idx as int)),
    {
        let ghost text0 = self.text@;
        let ghost i0 = self.idx as nat;
        let len = self.text.as_str().unicode_len();
        let start = self.idx;
        proof {
            lemma_scan_run_bounds(text0, i0);
        }
        loop
            invariant
                self.text@ == text0,
                self.current_token == old(self).current_token,
                self.text == old(self).text,
                start <= self.idx <= len,
                len == text0.len(),
                scan_run_end(text0, self.idx as nat) == scan_run_end(text0, i0),
                start == i0,
            ensures
                self.text == old(self).text,
                self.current_token == old(self).current_token,
                self.idx as nat == scan_run_end(text0, i0),
                self.idx <= len,
            decreases text0.len() - self.idx,
        {
            if self.idx >= len {
                break ;
            }
            let c = self.text.as_str().get_char(self.idx);
            let u = c as u32;
            let letter = ('a' as u32 <= u && u <= 'z' as u32) || ('A' as u32 <= u && u
                <= 'Z' as u32);
            let digit = '0' as u32 <= u && u <= '9' as u32;
            if letter || digit {
                self.idx = self.idx + 1;
            } else {
                break ;
            }
        }
        let w = self.text.as_str().substring_char(start, self.idx);
        let ws = String::from_str(w);
        proof {
            reveal_strlit("BEGIN");
            reveal_strlit("END");
            assert("BEGIN"@ =~= keyword_begin());
            assert("END"@ =~= keyword_end());
        }
        if ws == String::from_str("BEGIN") {
            Token::Begin
        } else if ws == String::from_str("END") {
            Token::End
        } else {
            Token::Id(ws)
        }
    }

    /// Scan the maximal run of digits at the cursor and accumulate its value,
    /// wrapping at the 64-bit boundary.
    pub fn get_digits(&mut self) -> (r: u64)
        requires
            old(self).inv(),
            old(self).idx < old(self).text@.len(),
            is_digit(old(self).text@[old(self).idx as int]),
        ensures
            final(self).text == old(self).text,
            final(self).current_token == old(self).current_token,
            final(self).inv(),
            final(self).idx as nat == scan_digits_end(old(self).text@, old(self).idx as nat),
            r == digits_value(old(self).text@, old(self).idx as nat, final(self).idx as nat),
    {
        let ghost text0 = self.text@;
        let ghost i0 = self.idx as nat;
        let len = self.text.as_str().unicode_len();
        let c0 = self.text.as_str().get_char(self.idx);
        let mut ret: u64 = (c0 as u32 - '0' as u32) as u64;
        self.idx = self.idx + 1;
        proof {
            lemma_scan_digits_bounds(text0, i0);
            assert(digits_value(text0, i0, i0) == 0);
            assert(digits_value(text0, i0, i0 + 1) == ret);
        }
        loop
            invariant
                self.text@ == text0,
                self.current_token == old(self).current_token,
                self.text == old(self).text,
                i0 < self.idx <= len,
                len == text0.len(),
                scan_digits_end(text0, self.idx as nat) == scan_digits_end(text0, i0),
                ret == digits_value(text0, i0, self.idx as nat),
            ensures
                self.text == old(self).text,
                self.current_token == old(self).current_token,
                self.idx as nat == scan_digits_end(text0, i0),
                self.idx <= len,
                ret == digits_value(text0, i0, self.idx as nat),
            decreases text0.len() - self.idx,
        {
            if self.idx >= len {
                break ;
            }
            let c = self.text.as_str().get_char(self.idx);
            let u = c as u32;
            if '0' as u32 <= u && u <= '9' as u32 {
                let d: u64 = (u - '0' as u32) as u64;
                ret = ret.wrapping_mul(10).wrapping_add(d);
                self.idx = self.idx + 1;
            } else {
                break ;
            }
        }
        ret
    }

    /// Produce exactly one token at the cursor, advancing past the characters
    /// consumed, and remember it as the lookahead.  On a lexical failure the
    /// lookahead is left alone and the failure is returned.
    pub fn get_next_token(&mut self) -> (r: Result<Token, InterpError>)
        requires
            old(self).inv(),
        ensures
            final(self).text == old(self).text,
            final(self).inv(),
            match spec_next_token(old(self).text@, old(self).idx as nat) {
                LexOut::Next { tok, end } => match r {
                    Ok(t) => t@ == tok && final(self).current_token@ == tok && final(self).idx as nat
                        == end,
                    Err(_) => false,
                },
                LexOut::Fail { err } => match r {
                    Ok(_) => false,
                    Err(e) => e@ == err,
                },
            },
    {
        let ghost text0 = self.text@;
        let ghost i0 = self.idx as nat;
        let len = self.text.as_str().unicode_len();
        proof {
            lemma_skip_ws_bounds(text0, i0);
        }
        loop
            invariant
                self.text@ == text0,
                self.current_token == old(self).current_token,
                self.text == old(self).text,
                self.idx <= len,
                len == text0.len(),
                skip_ws(text0, self.idx as nat) == skip_ws(text0, i0),
            ensures
                self.text == old(self).text,
                self.current_token == old(self).current_token,
                self.idx as nat == skip_ws(text0, i0),
                self.idx <= len,
            decreases text0.len() - self.idx,
        {
            if self.idx >= len {
                break ;
            }
            let c = self.text.as_str().get_char(self.idx);
            if c == ' ' || c == '\n' {
                self.idx = self.idx + 1;
            } else {
                break ;
            }
        }
        if self.idx >= len {
            self.current_token = Token::Eof;
            return Ok(Token::Eof);
        }
        let c = self.text.as_str().get_char(self.idx);
        let u = c as u32;
        let letter = ('a' as u32 <= u && u <= 'z' as u32) || ('A' as u32 <= u && u <= 'Z' as u32);
        let digit = '0' as u32 <= u && u <= '9' as u32;
        if letter {
            let t = self._id();
            self.current_token = t.dup();
            Ok(t)
        } else if digit {
            let n = self.get_digits();
            self.current_token = Token::Integer(n);
            Ok(Token::Integer(n))
        } else if c == ':' {
            if self.idx + 1 < len && self.text.as_str().get_char(self.idx + 1) == '=' {
                self.idx = self.idx + 2;
                self.current_token = Token::Assign;
                Ok(Token::Assign)
            } else {
                Err(InterpError::LexBadAssign { pos: self.idx })
            }
        } else if c == ';' {
            self.idx = self.idx + 1;
            self.current_token = Token::Semi;
            Ok(Token::Semi)
        } else if c == '.' {
            self.idx = self.idx + 1;
            self.current_token = Token::Dot;
            Ok(Token::Dot)
        } else if c == '+' || c == '-' {
            self.idx = self.idx + 1;
            self.current_token = Token::Op1(c);
            Ok(Token::Op1(c))
        } else if c == '*' || c == '/' {
            self.idx = self.idx + 1;
            self.current_token = Token::Op2(c);
            Ok(Token::Op2(c))
        } else if c == '(' {
            self.idx = self.idx + 1;
            self.current_token = Token::Lp;
            Ok(Token::Lp)
        } else if c == ')' {
            self.idx = self.idx + 1;
            self.current_token = Token::Rp;
            Ok(Token::Rp)
        } else {
            Err(InterpError::LexBadChar { ch: c, pos: self.idx })
        }
    }
}

} // verus!
