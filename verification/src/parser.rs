//! Recursive-descent parsing, LL(1):
//!
//! ```text
//! program            ::= compound_statement '.'
//! compound_statement ::= BEGIN statement_list END
//! statement_list     ::= statement (';' statement)*
//! statement          ::= compound_statement | assignment_statement | empty
//! assignment_statement ::= variable ':=' expr
//! variable           ::= IDENTIFIER
//! expr               ::= term (('+' | '-') term)*
//! term               ::= factor (('*' | '/') factor)*
//! factor             ::= ('+' | '-') factor | INTEGER | '(' expr ')' | variable
//! ```
//!
//! Each production has a functional specification (`spec_expr`, ...) over a
//! parser state [`PState`]: the lookahead token plus the cursor after it.  The
//! executable methods return exactly what these specifications describe, so a
//! parse is a function of the source text alone.
//!
//! The specifications recurse along the measure [`pm`], which shrinks whenever
//! a token is consumed.  That the lexer only moves forward is a lemma
//! ([`crate::lexer::lemma_next_token_bounds`]), not a definitional fact, so
//! each recursive call sits behind an explicit comparison of the measure; the
//! comparison provably always holds on states the parser reaches, and the
//! `else` branches are unreachable.

use vstd::prelude::*;
use crate::ast::{forest_view, lemma_forest_view_push, lemma_wf_stmt_seq_push, tree_view, wf_expr, wf_stmt, wf_stmt_seq, TreeNode, TreeS};
use crate::error::{ErrS, InterpError};
use crate::lexer::{spec_next_token, lemma_next_token_bounds, lemma_next_token_lexed, Interpreter, LexOut};
use crate::token::{kind_of, lexed_token, Token, TokenKind, TokenS};

verus! {

/// A parser state: the one token of lookahead and the cursor just past it.
#[verifier::ext_equal]
pub struct PState {
    /// The lookahead token.
    pub cur: TokenS,
    /// The cursor position after the lookahead token.
    pub pos: nat,
}

/// The parser state an interpreter is in.
pub open spec fn pstate(it: Interpreter) -> PState {
    PState { cur: it.current_token@, pos: it.idx as nat }
}

/// The parsing measure: how much input can still be consumed.  Every consumed
/// token shrinks it: either characters remain ahead of the cursor, or the
/// lookahead degrades to the end-of-input marker.
pub open spec fn pm(text: Seq<char>, st: PState) -> nat {
    (if st.pos <= text.len() {
        (text.len() - st.pos) as nat
    } else {
        0nat
    }) + (if st.cur is Eof {
        0nat
    } else {
        1nat
    })
}

/// Replace the lookahead with the next token from the lexer.
pub open spec fn spec_step(text: Seq<char>, st: PState) -> Result<PState, ErrS> {
    match spec_next_token(text, st.pos) {
        LexOut::Next { tok, end } => Ok(PState { cur: tok, pos: end }),
        LexOut::Fail { err } => Err(err),
    }
}

/// Consume the lookahead if its tag matches `k` (tag-only match), else fail.
pub open spec fn spec_eat(text: Seq<char>, st: PState, k: TokenKind) -> Result<PState, ErrS> {
    if kind_of(st.cur) == k {
        spec_step(text, st)
    } else {
        Err(ErrS::SyntaxUnexpected { expected: k, found: kind_of(st.cur) })
    }
}

/// Stepping never grows the measure, and strictly shrinks it when the token
/// consumed is not the end-of-input marker.
pub proof fn lemma_step_pm(text: Seq<char>, st: PState)
    requires
        st.pos <= text.len(),
    ensures
        match spec_step(text, st) {
            Ok(st1) => st1.pos <= text.len() && pm(text, st1) <= pm(text, st) && (!(st.cur
                is Eof) ==> pm(text, st1) < pm(text, st)),
            Err(_) => true,
        },
{
    lemma_next_token_bounds(text, st.pos);
}

/// Eating a token of any tag but the end-of-input marker strictly shrinks the
/// measure.
pub proof fn lemma_eat_pm(text: Seq<char>, st: PState, k: TokenKind)
    requires
        st.pos <= text.len(),
    ensures
        match spec_eat(text, st, k) {
            Ok(st1) => st1.pos <= text.len() && pm(text, st1) <= pm(text, st) && (k
                != TokenKind::Eof ==> pm(text, st1) < pm(text, st)),
            Err(_) => true,
        },
{
    if kind_of(st.cur) == k {
        lemma_step_pm(text, st);
    }
}

/// `variable ::= IDENTIFIER`: the lookahead becomes a leaf node and is
/// consumed.  (As in the grammar's use sites, the caller has already checked
/// that the lookahead is an identifier.)
pub open spec fn spec_variable(text: Seq<char>, st: PState) -> Result<(TreeS, PState), ErrS> {
    match spec_step(text, st) {
        Ok(st1) => Ok((TreeS { tag: st.cur, kids: Seq::empty() }, st1)),
        Err(e) => Err(e),
    }
}

/// `empty ::=`: a no-op placeholder node; nothing is consumed.
pub open spec fn spec_empty(st: PState) -> (TreeS, PState) {
    (TreeS { tag: TokenS::Other, kids: Seq::empty() }, st)
}

/// `factor ::= ('+' | '-') factor | INTEGER | '(' expr ')' | variable`.
pub open spec fn spec_factor(text: Seq<char>, st: PState) -> Result<(TreeS, PState), ErrS>
    decreases pm(text, st), 1int,
{
    match st.cur {
        TokenS::Op1(c) => match spec_step(text, st) {
            Ok(st1) => if pm(text, st1) < pm(text, st) {
                match spec_factor(text, st1) {
                    Ok((n, st2)) => Ok((TreeS { tag: TokenS::Unary(c), kids: seq![n] }, st2)),
                    Err(e) => Err(e),
                }
            } else {
                Err(ErrS::RuntimeBadNode)
            },
            Err(e) => Err(e),
        },
        TokenS::Integer(_) => match spec_step(text, st) {
            Ok(st1) => Ok((TreeS { tag: st.cur, kids: Seq::empty() }, st1)),
            Err(e) => Err(e),
        },
        TokenS::Lp => match spec_step(text, st) {
            Ok(st1) => if pm(text, st1) < pm(text, st) {
                match spec_expr(text, st1) {
                    Ok((n, st2)) => match spec_eat(text, st2, TokenKind::Rp) {
                        Ok(st3) => Ok((n, st3)),
                        Err(e) => Err(e),
                    },
                    Err(e) => Err(e),
                }
            } else {
                Err(ErrS::RuntimeBadNode)
            },
            Err(e) => Err(e),
        },
        TokenS::Id(_) => spec_variable(text, st),
        _ => Err(ErrS::SyntaxBadFactor { found: kind_of(st.cur) }),
    }
}

/// The folding tail of `term`: as long as the lookahead is a multiplicative
/// operator, consume it, parse the next factor, and fold the running node as
/// the new left operand (left-associativity).
pub open spec fn spec_term_more(text: Seq<char>, st: PState, acc: TreeS) -> Result<
    (TreeS, PState),
    ErrS,
>
    decreases pm(text, st), 1int,
{
    match st.cur {
        TokenS::Op2(_) => match spec_step(text, st) {
            Ok(st1) => if pm(text, st1) < pm(text, st) {
                match spec_factor(text, st1) {
                    Ok((n2, st2)) => if pm(text, st2) < pm(text, st) {
                        spec_term_more(text, st2, TreeS { tag: st.cur, kids: seq![acc, n2] })
                    } else {
                        Err(ErrS::RuntimeBadNode)
                    },
                    Err(e) => Err(e),
                }
            } else {
                Err(ErrS::RuntimeBadNode)
            },
            Err(e) => Err(e),
        },
        _ => Ok((acc, st)),
    }
}

/// `term ::= factor (('*' | '/') factor)*`, left-associative.
pub open spec fn spec_term(text: Seq<char>, st: PState) -> Result<(TreeS, PState), ErrS>
    decreases pm(text, st), 2int,
{
    match spec_factor(text, st) {
        Ok((n, st1)) => if pm(text, st1) <= pm(text, st) {
            spec_term_more(text, st1, n)
        } else {
            Err(ErrS::RuntimeBadNode)
        },
        Err(e) => Err(e),
    }
}

/// The folding tail of `expr`, over the additive operators.
pub open spec fn spec_expr_more(text: Seq<char>, st: PState, acc: TreeS) -> Result<
    (TreeS, PState),
    ErrS,
>
    decreases pm(text, st), 3int,
{
    match st.cur {
        TokenS::Op1(_) => match spec_step(text, st) {
            Ok(st1) => if pm(text, st1) < pm(text, st) {
                match spec_term(text, st1) {
                    Ok((n2, st2)) => if pm(text, st2) < pm(text, st) {
                        spec_expr_more(text, st2, TreeS { tag: st.cur, kids: seq![acc, n2] })
                    } else {
                        Err(ErrS::RuntimeBadNode)
                    },
                    Err(e) => Err(e),
                }
            } else {
                Err(ErrS::RuntimeBadNode)
            },
            Err(e) => Err(e),
        },
        _ => Ok((acc, st)),
    }
}

/// `expr ::= term (('+' | '-') term)*`, left-associative.
pub open spec fn spec_expr(text: Seq<char>, st: PState) -> Result<(TreeS, PState), ErrS>
    decreases pm(text, st), 4int,
{
    match spec_term(text, st) {
        Ok((n, st1)) => if pm(text, st1) <= pm(text, st) {
            spec_expr_more(text, st1, n)
        } else {
            Err(ErrS::RuntimeBadNode)
        },
        Err(e) => Err(e),
    }
}

/// `assignment_statement ::= variable ':=' expr`: the assignment token is the
/// node's tag, the variable child 0, the expression child 1.
pub open spec fn spec_assignment(text: Seq<char>, st: PState) -> Result<(TreeS, PState), ErrS>
    decreases pm(text, st), 1int,
{
    match spec_variable(text, st) {
        Ok((left, st1)) => {
            let tok = st1.cur;
            match spec_eat(text, st1, TokenKind::Assign) {
                Ok(st2) => if pm(text, st2) < pm(text, st) {
                    match spec_expr(text, st2) {
                        Ok((right, st3)) => Ok(
                            (TreeS { tag: tok, kids: seq![left, right] }, st3),
                        ),
                        Err(e) => Err(e),
                    }
                } else {
                    Err(ErrS::RuntimeBadNode)
                },
                Err(e) => Err(e),
            }
        },
        Err(e) => Err(e),
    }
}

/// `statement ::= compound_statement | assignment_statement | empty`,
/// dispatched on the lookahead's tag.
pub open spec fn spec_statement(text: Seq<char>, st: PState) -> Result<(TreeS, PState), ErrS>
    decreases pm(text, st), 2int,
{
    match st.cur {
        TokenS::Begin => spec_compound(text, st),
        TokenS::Id(_) => spec_assignment(text, st),
        _ => Ok(spec_empty(st)),
    }
}

/// The folding tail of `statement_list`: as long as the lookahead is a
/// separator, consume it and parse one more statement.  When the list ends on
/// an identifier, two statements abut with no separator: a syntax failure.
pub open spec fn spec_statement_list_more(text: Seq<char>, st: PState, acc: Seq<TreeS>) -> Result<
    (Seq<TreeS>, PState),
    ErrS,
>
    decreases pm(text, st), 3int,
{
    if st.cur is Semi {
        match spec_eat(text, st, TokenKind::Semi) {
            Ok(st1) => if pm(text, st1) < pm(text, st) {
                match spec_statement(text, st1) {
                    Ok((n, st2)) => if pm(text, st2) < pm(text, st) {
                        spec_statement_list_more(text, st2, acc.push(n))
                    } else {
                        Err(ErrS::RuntimeBadNode)
                    },
                    Err(e) => Err(e),
                }
            } else {
                Err(ErrS::RuntimeBadNode)
            },
            Err(e) => Err(e),
        }
    } else if st.cur is Id {
        Err(ErrS::SyntaxUnseparated)
    } else {
        Ok((acc, st))
    }
}

/// `statement_list ::= statement (';' statement)*`.
pub open spec fn spec_statement_list(text: Seq<char>, st: PState) -> Result<
    (Seq<TreeS>, PState),
    ErrS,
>
    decreases pm(text, st), 4int,
{
    match spec_statement(text, st) {
        Ok((n, st1)) => if pm(text, st1) <= pm(text, st) {
            spec_statement_list_more(text, st1, seq![n])
        } else {
            Err(ErrS::RuntimeBadNode)
        },
        Err(e) => Err(e),
    }
}

/// `compound_statement ::= BEGIN statement_list END`: a grouping node whose
/// children are the statements.
pub open spec fn spec_compound(text: Seq<char>, st: PState) -> Result<(TreeS, PState), ErrS>
    decreases pm(text, st), 1int,
{
    match spec_eat(text, st, TokenKind::Begin) {
        Ok(st1) => if pm(text, st1) < pm(text, st) {
            match spec_statement_list(text, st1) {
                Ok((nodes, st2)) => match spec_eat(text, st2, TokenKind::End) {
                    Ok(st3) => Ok((TreeS { tag: TokenS::Other, kids: nodes }, st3)),
                    Err(e) => Err(e),
                },
                Err(e) => Err(e),
            }
        } else {
            Err(ErrS::RuntimeBadNode)
        },
        Err(e) => Err(e),
    }
}

/// `program ::= compound_statement '.'`: a grouping root over the one
/// compound statement.
pub open spec fn spec_program(text: Seq<char>, st: PState) -> Result<(TreeS, PState), ErrS> {
    match spec_compound(text, st) {
        Ok((node, st1)) => match spec_eat(text, st1, TokenKind::Dot) {
            Ok(st2) => Ok((TreeS { tag: TokenS::Other, kids: seq![node] }, st2)),
            Err(e) => Err(e),
        },
        Err(e) => Err(e),
    }
}

/// A whole parse: the program, then the lookahead must be the end-of-input
/// marker — trailing tokens are a syntax failure.
pub open spec fn spec_parse(text: Seq<char>, st: PState) -> Result<(TreeS, PState), ErrS> {
    match spec_program(text, st) {
        Ok((node, st1)) => if st1.cur is Eof {
            Ok((node, st1))
        } else {
            Err(ErrS::SyntaxTrailing { found: kind_of(st1.cur) })
        },
        Err(e) => Err(e),
    }
}

/// What parsing a source text yields: prime the first lookahead token, then
/// parse.  The tree — or the failure — is a function of the source alone.
pub open spec fn spec_parse_source(text: Seq<char>) -> Result<TreeS, ErrS> {
    match spec_next_token(text, 0) {
        LexOut::Next { tok, end } => match spec_parse(text, PState { cur: tok, pos: end }) {
            Ok((node, _)) => Ok(node),
            Err(e) => Err(e),
        },
        LexOut::Fail { err } => Err(err),
    }
}

impl Interpreter {
    /// Consume the lookahead if its tag matches `k`, pulling the next token
    /// from the lexer; otherwise report the expected and the found tag.
    pub fn eat(&mut self, k: TokenKind) -> (r: Result<(), InterpError>)
        requires
            old(self).inv(),
        ensures
            final(self).text == old(self).text,
            final(self).inv(),
            match (spec_eat(old(self).text@, pstate(*old(self)), k), r) {
                (Ok(st), Ok(())) => pstate(*final(self)) == st && pm(old(self).text@, st) <= pm(
                    old(self).text@,
                    pstate(*old(self)),
                ) && (k != TokenKind::Eof ==> pm(old(self).text@, st) < pm(
                    old(self).text@,
                    pstate(*old(self)),
                )),
                (Err(eS), Err(e)) => e@ == eS,
                _ => false,
            },
    {
        proof {
            lemma_eat_pm(self.text@, pstate(*self), k);
        }
        if self.current_token.kind() == k {
            match self.get_next_token() {
                Ok(_) => Ok(()),
                Err(e) => Err(e),
            }
        } else {
            Err(InterpError::SyntaxUnexpected { expected: k, found: self.current_token.kind() })
        }
    }

    /// `variable ::= IDENTIFIER`: the lookahead becomes a leaf node and is
    /// consumed.
    pub fn variable(&mut self) -> (r: Result<TreeNode, InterpError>)
        requires
            old(self).inv(),
        ensures
            final(self).text == old(self).text,
            final(self).inv(),
            match (spec_variable(old(self).text@, pstate(*old(self))), r) {
                (Ok((nS, stS)), Ok(n)) => tree_view(n) == nS && pstate(*final(self)) == stS && pm(
                    old(self).text@,
                    stS,
                ) <= pm(old(self).text@, pstate(*old(self))),
                (Err(eS), Err(e)) => e@ == eS,
                _ => false,
            },
    {
        proof {
            lemma_step_pm(self.text@, pstate(*self));
        }
        let t = self.current_token.dup();
        match self.get_next_token() {
            Ok(_) => Ok(TreeNode::leaf(t)),
            Err(e) => Err(e),
        }
    }

    /// `empty ::=`: a no-op placeholder node; nothing is consumed.
    pub fn empty(&mut self) -> (r: TreeNode)
        ensures
            *final(self) == *old(self),
            tree_view(r) == spec_empty(pstate(*old(self))).0,
    {
        TreeNode::leaf(Token::Other)
    }

    /// `factor ::= ('+' | '-') factor | INTEGER | '(' expr ')' | variable`.
    pub fn factor(&mut self) -> (r: Result<TreeNode, InterpError>)
        requires
            old(self).inv(),
        ensures
            final(self).text == old(self).text,
            final(self).inv(),
            match (spec_factor(old(self).text@, pstate(*old(self))), r) {
                (Ok((nS, stS)), Ok(n)) => tree_view(n) == nS && pstate(*final(self)) == stS && pm(
                    old(self).text@,
                    stS,
                ) <= pm(old(self).text@, pstate(*old(self))),
                (Err(eS), Err(e)) => e@ == eS,
                _ => false,
            },
        decreases pm(self.text@, pstate(*self)), 1int,
    {
        let ghost text0 = self.text@;
        let ghost st0 = pstate(*self);
        proof {
            lemma_step_pm(text0, st0);
        }
        let tok = self.current_token.dup();
        match tok {
            Token::Op1(c) => {
                match self.get_next_token() {
                    Ok(_) => {},
                    Err(e) => {
                        return Err(e);
                    },
                }
                match self.factor() {
                    Ok(n) => Ok(TreeNode::unary(Token::Unary(c), n)),
                    Err(e) => Err(e),
                }
            },
            Token::Integer(_) => {
                match self.get_next_token() {
                    Ok(_) => {},
                    Err(e) => {
                        return Err(e);
                    },
                }
                Ok(TreeNode::leaf(tok))
            },
            Token::Lp => {
                match self.get_next_token() {
                    Ok(_) => {},
                    Err(e) => {
                        return Err(e);
                    },
                }
                let node = match self.expr() {
                    Ok(n) => n,
                    Err(e) => {
                        return Err(e);
                    },
                };
                match self.eat(TokenKind::Rp) {
                    Ok(()) => Ok(node),
                    Err(e) => Err(e),
                }
            },
            Token::Id(_) => self.variable(),
            _ => Err(InterpError::SyntaxBadFactor { found: tok.kind() }),
        }
    }

    /// `term ::= factor (('*' | '/') factor)*`: each iteration folds the
    /// running node as the new left operand, so the operators associate to the
    /// left.
    pub fn term(&mut self) -> (r: Result<TreeNode, InterpError>)
        requires
            old(self).inv(),
        ensures
            final(self).text == old(self).text,
            final(self).inv(),
            match (spec_term(old(self).text@, pstate(*old(self))), r) {
                (Ok((nS, stS)), Ok(n)) => tree_view(n) == nS && pstate(*final(self)) == stS && pm(
                    old(self).text@,
                    stS,
                ) <= pm(old(self).text@, pstate(*old(self))),
                (Err(eS), Err(e)) => e@ == eS,
                _ => false,
            },
        decreases pm(self.text@, pstate(*self)), 2int,
    {
        let ghost text0 = self.text@;
        let ghost st0 = pstate(*self);
        let mut node = match self.factor() {
            Ok(n) => n,
            Err(e) => {
                return Err(e);
            },
        };
        loop
            invariant
                self.inv(),
                self.text@ == text0,
                self.text == old(self).text,
                text0 == old(self).text@,
                st0 == pstate(*old(self)),
                pm(text0, pstate(*self)) <= pm(text0, st0),
                spec_term(text0, st0) == spec_term_more(text0, pstate(*self), tree_view(node)),
            ensures
                self.inv(),
                self.text@ == text0,
                self.text == old(self).text,
                pm(text0, pstate(*self)) <= pm(text0, st0),
                spec_term(text0, st0) == spec_term_more(text0, pstate(*self), tree_view(node)),
                kind_of(self.current_token@) != TokenKind::Op2,
            decreases pm(text0, pstate(*self)),
        {
            if self.current_token.kind() != TokenKind::Op2 {
                break ;
            }
            let ghost st = pstate(*self);
            proof {
                lemma_step_pm(text0, st);
            }
            let token = self.current_token.dup();
            match self.get_next_token() {
                Ok(_) => {},
                Err(e) => {
                    return Err(e);
                },
            }
            let right = match self.factor() {
                Ok(n) => n,
                Err(e) => {
                    return Err(e);
                },
            };
            node = TreeNode::binary(token, node, right);
        }
        Ok(node)
    }

    /// `expr ::= term (('+' | '-') term)*`, left-associative in the same way.
    pub fn expr(&mut self) -> (r: Result<TreeNode, InterpError>)
        requires
            old(self).inv(),
        ensures
            final(self).text == old(self).text,
            final(self).inv(),
            match (spec_expr(old(self).text@, pstate(*old(self))), r) {
                (Ok((nS, stS)), Ok(n)) => tree_view(n) == nS && pstate(*final(self)) == stS && pm(
                    old(self).text@,
                    stS,
                ) <= pm(old(self).text@, pstate(*old(self))),
                (Err(eS), Err(e)) => e@ == eS,
                _ => false,
            },
        decreases pm(self.text@, pstate(*self)), 4int,
    {
        let ghost text0 = self.text@;
        let ghost st0 = pstate(*self);
        let mut node = match self.term() {
            Ok(n) => n,
            Err(e) => {
                return Err(e);
            },
        };
        loop
            invariant
                self.inv(),
                self.text@ == text0,
                self.text == old(self).text,
                text0 == old(self).text@,
                st0 == pstate(*old(self)),
                pm(text0, pstate(*self)) <= pm(text0, st0),
                spec_expr(text0, st0) == spec_expr_more(text0, pstate(*self), tree_view(node)),
            ensures
                self.inv(),
                self.text@ == text0,
                self.text == old(self).text,
                pm(text0, pstate(*self)) <= pm(text0, st0),
                spec_expr(text0, st0) == spec_expr_more(text0, pstate(*self), tree_view(node)),
                kind_of(self.current_token@) != TokenKind::Op1,
            decreases pm(text0, pstate(*self)),
        {
            if self.current_token.kind() != TokenKind::Op1 {
                break ;
            }
            let ghost st = pstate(*self);
            proof {
                lemma_step_pm(text0, st);
            }
            let token = self.current_token.dup();
            match self.get_next_token() {
                Ok(_) => {},
                Err(e) => {
                    return Err(e);
                },
            }
            let right = match self.term() {
                Ok(n) => n,
                Err(e) => {
                    return Err(e);
                },
            };
            node = TreeNode::binary(token, node, right);
        }
        Ok(node)
    }

    /// `assignment_statement ::= variable ':=' expr`.
    pub fn assignment_statement(&mut self) -> (r: Result<TreeNode, InterpError>)
        requires
            old(self).inv(),
        ensures
            final(self).text == old(self).text,
            final(self).inv(),
            match (spec_assignment(old(self).text@, pstate(*old(self))), r) {
                (Ok((nS, stS)), Ok(n)) => tree_view(n) == nS && pstate(*final(self)) == stS && pm(
                    old(self).text@,
                    stS,
                ) <= pm(old(self).text@, pstate(*old(self))),
                (Err(eS), Err(e)) => e@ == eS,
                _ => false,
            },
        decreases pm(self.text@, pstate(*self)), 1int,
    {
        let ghost text0 = self.text@;
        let ghost st0 = pstate(*self);
        let left = match self.variable() {
            Ok(n) => n,
            Err(e) => {
                return Err(e);
            },
        };
        let token = self.current_token.dup();
        match self.eat(TokenKind::Assign) {
            Ok(()) => {},
            Err(e) => {
                return Err(e);
            },
        }
        let right = match self.expr() {
            Ok(n) => n,
            Err(e) => {
                return Err(e);
            },
        };
        Ok(TreeNode::binary(token, left, right))
    }

    /// `statement ::= compound_statement | assignment_statement | empty`,
    /// dispatched on the lookahead's tag.
    pub fn statement(&mut self) -> (r: Result<TreeNode, InterpError>)
        requires
            old(self).inv(),
        ensures
            final(self).text == old(self).text,
            final(self).inv(),
            match (spec_statement(old(self).text@, pstate(*old(self))), r) {
                (Ok((nS, stS)), Ok(n)) => tree_view(n) == nS && pstate(*final(self)) == stS && pm(
                    old(self).text@,
                    stS,
                ) <= pm(old(self).text@, pstate(*old(self))),
                (Err(eS), Err(e)) => e@ == eS,
                _ => false,
            },
        decreases pm(self.text@, pstate(*self)), 2int,
    {
        let k = self.current_token.kind();
        if k == TokenKind::Begin {
            self.compound_statement()
        } else if k == TokenKind::Id {
            self.assignment_statement()
        } else {
            Ok(self.empty())
        }
    }

    /// `statement_list ::= statement (';' statement)*`; an identifier right
    /// after a statement, with no separator in between, is a syntax failure.
    pub fn statement_list(&mut self) -> (r: Result<Vec<TreeNode>, InterpError>)
        requires
            old(self).inv(),
        ensures
            final(self).text == old(self).text,
            final(self).inv(),
            match (spec_statement_list(old(self).text@, pstate(*old(self))), r) {
                (Ok((nsS, stS)), Ok(ns)) => forest_view(ns@) == nsS && pstate(*final(self)) == stS
                    && pm(old(self).text@, stS) <= pm(old(self).text@, pstate(*old(self))),
                (Err(eS), Err(e)) => e@ == eS,
                _ => false,
            },
        decreases pm(self.text@, pstate(*self)), 4int,
    {
        let ghost text0 = self.text@;
        let ghost st0 = pstate(*self);
        let first = match self.statement() {
            Ok(n) => n,
            Err(e) => {
                return Err(e);
            },
        };
        let mut nodes: Vec<TreeNode> = Vec::new();
        proof {
            lemma_forest_view_push(nodes@, first);
            assert(forest_view(Seq::<TreeNode>::empty()) == Seq::<TreeS>::empty());
            assert(forest_view(nodes@.push(first)) =~= seq![tree_view(first)]);
        }
        nodes.push(first);
        loop
            invariant
                self.inv(),
                self.text@ == text0,
                self.text == old(self).text,
                text0 == old(self).text@,
                st0 == pstate(*old(self)),
                pm(text0, pstate(*self)) <= pm(text0, st0),
                spec_statement_list(text0, st0) == spec_statement_list_more(
                    text0,
                    pstate(*self),
                    forest_view(nodes@),
                ),
            ensures
                self.inv(),
                self.text@ == text0,
                self.text == old(self).text,
                pm(text0, pstate(*self)) <= pm(text0, st0),
                spec_statement_list(text0, st0) == spec_statement_list_more(
                    text0,
                    pstate(*self),
                    forest_view(nodes@),
                ),
                kind_of(self.current_token@) != TokenKind::Semi,
            decreases pm(text0, pstate(*self)),
        {
            if self.current_token.kind() != TokenKind::Semi {
                break ;
            }
            match self.eat(TokenKind::Semi) {
                Ok(()) => {},
                Err(e) => {
                    return Err(e);
                },
            }
            let n = match self.statement() {
                Ok(n) => n,
                Err(e) => {
                    return Err(e);
                },
            };
            proof {
                lemma_forest_view_push(nodes@, n);
            }
            nodes.push(n);
        }
        if self.current_token.kind() == TokenKind::Id {
            return Err(InterpError::SyntaxUnseparated);
        }
        Ok(nodes)
    }

    /// `compound_statement ::= BEGIN statement_list END`.
    pub fn compound_statement(&mut self) -> (r: Result<TreeNode, InterpError>)
        requires
            old(self).inv(),
        ensures
            final(self).text == old(self).text,
            final(self).inv(),
            match (spec_compound(old(self).text@, pstate(*old(self))), r) {
                (Ok((nS, stS)), Ok(n)) => tree_view(n) == nS && pstate(*final(self)) == stS && pm(
                    old(self).text@,
                    stS,
                ) <= pm(old(self).text@, pstate(*old(self))),
                (Err(eS), Err(e)) => e@ == eS,
                _ => false,
            },
        decreases pm(self.text@, pstate(*self)), 1int,
    {
        let ghost text0 = self.text@;
        let ghost st0 = pstate(*self);
        match self.eat(TokenKind::Begin) {
            Ok(()) => {},
            Err(e) => {
                return Err(e);
            },
        }
        let nodes = match self.statement_list() {
            Ok(ns) => ns,
            Err(e) => {
                return Err(e);
            },
        };
        match self.eat(TokenKind::End) {
            Ok(()) => {},
            Err(e) => {
                return Err(e);
            },
        }
        Ok(TreeNode::group(Token::Other, nodes))
    }

    /// `program ::= compound_statement '.'`.
    pub fn program1(&mut self) -> (r: Result<TreeNode, InterpError>)
        requires
            old(self).inv(),
        ensures
            final(self).text == old(self).text,
            final(self).inv(),
            match (spec_program(old(self).text@, pstate(*old(self))), r) {
                (Ok((nS, stS)), Ok(n)) => tree_view(n) == nS && pstate(*final(self)) == stS,
                (Err(eS), Err(e)) => e@ == eS,
                _ => false,
            },
    {
        let node = match self.compound_statement() {
            Ok(n) => n,
            Err(e) => {
                return Err(e);
            },
        };
        match self.eat(TokenKind::Dot) {
            Ok(()) => {},
            Err(e) => {
                return Err(e);
            },
        }
        Ok(TreeNode::unary(Token::Other, node))
    }

    /// Parse the whole program and require the lookahead to be the
    /// end-of-input marker afterwards: extra trailing tokens are a syntax
    /// failure.  The result is a function of the source text alone
    /// ([`spec_parse`]): parsing the same source twice yields the same tree.
    pub fn parse(&mut self) -> (r: Result<TreeNode, InterpError>)
        requires
            old(self).inv(),
        ensures
            final(self).text == old(self).text,
            final(self).inv(),
            match (spec_parse(old(self).text@, pstate(*old(self))), r) {
                (Ok((nS, stS)), Ok(n)) => tree_view(n) == nS && pstate(*final(self)) == stS,
                (Err(eS), Err(e)) => e@ == eS,
                _ => false,
            },
    {
        let node = match self.program1() {
            Ok(n) => n,
            Err(e) => {
                return Err(e);
            },
        };
        if self.current_token.kind() == TokenKind::Eof {
            Ok(node)
        } else {
            Err(InterpError::SyntaxTrailing { found: self.current_token.kind() })
        }
    }
}

/// A state the parser can actually stand in: the cursor within the text, the
/// lookahead a token the lexer produced.
pub open spec fn reachable(text: Seq<char>, st: PState) -> bool {
    st.pos <= text.len() && lexed_token(st.cur)
}

/// Stepping from a reachable state reaches a reachable state.
proof fn lemma_step_reachable(text: Seq<char>, st: PState)
    requires
        reachable(text, st),
    ensures
        match spec_step(text, st) {
            Ok(st1) => reachable(text, st1) && pm(text, st1) <= pm(text, st),
            Err(_) => true,
        },
{
    lemma_step_pm(text, st);
    lemma_next_token_lexed(text, st.pos);
}

/// Eating from a reachable state reaches a reachable state, shrinking the
/// measure whenever the tag eaten is not the end-of-input marker.
proof fn lemma_eat_reachable(text: Seq<char>, st: PState, k: TokenKind)
    requires
        reachable(text, st),
    ensures
        match spec_eat(text, st, k) {
            Ok(st1) => reachable(text, st1) && pm(text, st1) <= pm(text, st) && (k
                != TokenKind::Eof ==> pm(text, st1) < pm(text, st)),
            Err(_) => true,
        },
{
    lemma_step_reachable(text, st);
    lemma_eat_pm(text, st, k);
}

/// From a reachable state, a parsed factor is a well-formed expression.
proof fn lemma_factor_wf(text: Seq<char>, st: PState)
    requires
        reachable(text, st),
    ensures
        match spec_factor(text, st) {
            Ok((n, st1)) => wf_expr(n) && reachable(text, st1),
            Err(_) => true,
        },
    decreases pm(text, st), 1int,
{
    match st.cur {
        TokenS::Op1(_) => {
            lemma_step_reachable(text, st);
            match spec_step(text, st) {
                Ok(st1) => {
                    if pm(text, st1) < pm(text, st) {
                        lemma_factor_wf(text, st1);
                    }
                },
                Err(_) => {},
            }
        },
        TokenS::Integer(_) => {
            lemma_step_reachable(text, st);
        },
        TokenS::Lp => {
            lemma_step_reachable(text, st);
            match spec_step(text, st) {
                Ok(st1) => {
                    if pm(text, st1) < pm(text, st) {
                        lemma_expr_wf(text, st1);
                        match spec_expr(text, st1) {
                            Ok((n, st2)) => {
                                lemma_eat_reachable(text, st2, TokenKind::Rp);
                            },
                            Err(_) => {},
                        }
                    }
                },
                Err(_) => {},
            }
        },
        TokenS::Id(_) => {
            lemma_step_reachable(text, st);
        },
        _ => {},
    }
}

/// Folding further factors into a well-formed term keeps it well-formed.
proof fn lemma_term_more_wf(text: Seq<char>, st: PState, acc: TreeS)
    requires
        reachable(text, st),
        wf_expr(acc),
    ensures
        match spec_term_more(text, st, acc) {
            Ok((n, st1)) => wf_expr(n) && reachable(text, st1),
            Err(_) => true,
        },
    decreases pm(text, st), 1int,
{
    match st.cur {
        TokenS::Op2(_) => {
            lemma_step_reachable(text, st);
            match spec_step(text, st) {
                Ok(st1) => {
                    if pm(text, st1) < pm(text, st) {
                        lemma_factor_wf(text, st1);
                        match spec_factor(text, st1) {
                            Ok((n2, st2)) => {
                                if pm(text, st2) < pm(text, st) {
                                    lemma_term_more_wf(
                                        text,
                                        st2,
                                        TreeS { tag: st.cur, kids: seq![acc, n2] },
                                    );
                                }
                            },
                            Err(_) => {},
                        }
                    }
                },
                Err(_) => {},
            }
        },
        _ => {},
    }
}

/// From a reachable state, a parsed term is a well-formed expression.
proof fn lemma_term_wf(text: Seq<char>, st: PState)
    requires
        reachable(text, st),
    ensures
        match spec_term(text, st) {
            Ok((n, st1)) => wf_expr(n) && reachable(text, st1),
            Err(_) => true,
        },
    decreases pm(text, st), 2int,
{
    lemma_factor_wf(text, st);
    match spec_factor(text, st) {
        Ok((n, st1)) => {
            if pm(text, st1) <= pm(text, st) {
                lemma_term_more_wf(text, st1, n);
            }
        },
        Err(_) => {},
    }
}

/// Folding further terms into a well-formed expression keeps it well-formed.
proof fn lemma_expr_more_wf(text: Seq<char>, st: PState, acc: TreeS)
    requires
        reachable(text, st),
        wf_expr(acc),
    ensures
        match spec_expr_more(text, st, acc) {
            Ok((n, st1)) => wf_expr(n) && reachable(text, st1),
            Err(_) => true,
        },
    decreases pm(text, st), 3int,
{
    match st.cur {
        TokenS::Op1(_) => {
            lemma_step_reachable(text, st);
            match spec_step(text, st) {
                Ok(st1) => {
                    if pm(text, st1) < pm(text, st) {
                        lemma_term_wf(text, st1);
                        match spec_term(text, st1) {
                            Ok((n2, st2)) => {
                                if pm(text, st2) < pm(text, st) {
                                    lemma_expr_more_wf(
                                        text,
                                        st2,
                                        TreeS { tag: st.cur, kids: seq![acc, n2] },
                                    );
                                }
                            },
                            Err(_) => {},
                        }
                    }
                },
                Err(_) => {},
            }
        },
        _ => {},
    }
}

/// From a reachable state, a parsed expression is well-formed.
proof fn lemma_expr_wf(text: Seq<char>, st: PState)
    requires
        reachable(text, st),
    ensures
        match spec_expr(text, st) {
            Ok((n, st1)) => wf_expr(n) && reachable(text, st1),
            Err(_) => true,
        },
    decreases pm(text, st), 4int,
{
    lemma_term_wf(text, st);
    match spec_term(text, st) {
        Ok((n, st1)) => {
            if pm(text, st1) <= pm(text, st) {
                lemma_expr_more_wf(text, st1, n);
            }
        },
        Err(_) => {},
    }
}

/// From a reachable state whose lookahead is an identifier, a parsed
/// assignment is a well-formed statement.
proof fn lemma_assignment_wf(text: Seq<char>, st: PState)
    requires
        reachable(text, st),
        st.cur is Id,
    ensures
        match spec_assignment(text, st) {
            Ok((n, st1)) => wf_stmt(n) && reachable(text, st1),
            Err(_) => true,
        },
    decreases pm(text, st), 1int,
{
    lemma_step_reachable(text, st);
    match spec_step(text, st) {
        Ok(st1) => {
            lemma_eat_reachable(text, st1, TokenKind::Assign);
            match spec_eat(text, st1, TokenKind::Assign) {
                Ok(st2) => {
                    if pm(text, st2) < pm(text, st) {
                        lemma_expr_wf(text, st2);
                    }
                },
                Err(_) => {},
            }
        },
        Err(_) => {},
    }
}

/// From a reachable state, a parsed statement is well-formed.
proof fn lemma_statement_wf(text: Seq<char>, st: PState)
    requires
        reachable(text, st),
    ensures
        match spec_statement(text, st) {
            Ok((n, st1)) => wf_stmt(n) && reachable(text, st1),
            Err(_) => true,
        },
    decreases pm(text, st), 2int,
{
    match st.cur {
        TokenS::Begin => {
            lemma_compound_wf(text, st);
        },
        TokenS::Id(_) => {
            lemma_assignment_wf(text, st);
        },
        _ => {
            assert(wf_stmt_seq(Seq::<TreeS>::empty()));
        },
    }
}

/// Parsing further separated statements keeps the list well-formed.
proof fn lemma_statement_list_more_wf(text: Seq<char>, st: PState, acc: Seq<TreeS>)
    requires
        reachable(text, st),
        wf_stmt_seq(acc),
    ensures
        match spec_statement_list_more(text, st, acc) {
            Ok((ns, st1)) => wf_stmt_seq(ns) && reachable(text, st1),
            Err(_) => true,
        },
    decreases pm(text, st), 3int,
{
    if st.cur is Semi {
        lemma_eat_reachable(text, st, TokenKind::Semi);
        match spec_eat(text, st, TokenKind::Semi) {
            Ok(st1) => {
                if pm(text, st1) < pm(text, st) {
                    lemma_statement_wf(text, st1);
                    match spec_statement(text, st1) {
                        Ok((n, st2)) => {
                            if pm(text, st2) < pm(text, st) {
                                lemma_wf_stmt_seq_push(acc, n);
                                lemma_statement_list_more_wf(text, st2, acc.push(n));
                            }
                        },
                        Err(_) => {},
                    }
                }
            },
            Err(_) => {},
        }
    }
}

/// From a reachable state, a parsed statement list is well-formed.
proof fn lemma_statement_list_wf(text: Seq<char>, st: PState)
    requires
        reachable(text, st),
    ensures
        match spec_statement_list(text, st) {
            Ok((ns, st1)) => wf_stmt_seq(ns) && reachable(text, st1),
            Err(_) => true,
        },
    decreases pm(text, st), 4int,
{
    lemma_statement_wf(text, st);
    match spec_statement(text, st) {
        Ok((n, st1)) => {
            if pm(text, st1) <= pm(text, st) {
                assert(wf_stmt_seq(Seq::<TreeS>::empty()));
                lemma_wf_stmt_seq_push(Seq::empty(), n);
                assert(Seq::<TreeS>::empty().push(n) =~= seq![n]);
                lemma_statement_list_more_wf(text, st1, seq![n]);
            }
        },
        Err(_) => {},
    }
}

/// From a reachable state, a parsed compound statement is well-formed.
proof fn lemma_compound_wf(text: Seq<char>, st: PState)
    requires
        reachable(text, st),
    ensures
        match spec_compound(text, st) {
            Ok((n, st1)) => wf_stmt(n) && reachable(text, st1),
            Err(_) => true,
        },
    decreases pm(text, st), 1int,
{
    lemma_eat_reachable(text, st, TokenKind::Begin);
    match spec_eat(text, st, TokenKind::Begin) {
        Ok(st1) => {
            if pm(text, st1) < pm(text, st) {
                lemma_statement_list_wf(text, st1);
                match spec_statement_list(text, st1) {
                    Ok((nodes, st2)) => {
                        lemma_eat_reachable(text, st2, TokenKind::End);
                    },
                    Err(_) => {},
                }
            }
        },
        Err(_) => {},
    }
}

/// From a reachable state, a parsed program is a well-formed statement.
proof fn lemma_program_wf(text: Seq<char>, st: PState)
    requires
        reachable(text, st),
    ensures
        match spec_program(text, st) {
            Ok((n, st1)) => wf_stmt(n) && reachable(text, st1),
            Err(_) => true,
        },
{
    lemma_compound_wf(text, st);
    match spec_compound(text, st) {
        Ok((node, st1)) => {
            lemma_eat_reachable(text, st1, TokenKind::Dot);
            assert(wf_stmt_seq(Seq::<TreeS>::empty()));
            lemma_wf_stmt_seq_push(Seq::empty(), node);
            assert(Seq::<TreeS>::empty().push(node) =~= seq![node]);
        },
        Err(_) => {},
    }
}

/// Whatever tree a whole parse yields is a well-formed statement: the parser
/// only builds shapes the evaluator accepts.
pub proof fn lemma_parse_source_wf(text: Seq<char>)
    ensures
        match spec_parse_source(text) {
            Ok(tree) => wf_stmt(tree),
            Err(_) => true,
        },
{
    lemma_next_token_bounds(text, 0);
    lemma_next_token_lexed(text, 0);
    match spec_next_token(text, 0) {
        LexOut::Next { tok, end } => {
            lemma_program_wf(text, PState { cur: tok, pos: end });
        },
        LexOut::Fail { err } => {},
    }
}

} // verus!
