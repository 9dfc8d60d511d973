//! Evaluation: walking the AST against the one global variable store.
//!
//! [`spec_visit_value`] and [`spec_visit`] are the functional specifications
//! of expression and statement evaluation; [`Visit::visit_value`] and
//! [`Visit::visit`] return exactly what they describe.  Arithmetic is over
//! signed 64-bit values and wraps around at their boundary; division
//! truncates toward zero and reports division by zero as an explicit runtime
//! failure, never as a low-level trap.

use vstd::prelude::*;
use crate::ast::{forest_view, lemma_forest_view, tree_view, wf_expr, wf_stmt, wf_stmt_seq, TreeNode, TreeS};
use crate::error::{ErrS, InterpError};
use crate::lexer::Interpreter;
use crate::parser::{lemma_parse_source_wf, spec_parse_source};
use crate::token::{Token, TokenS};

verus! {

/// Look a name up in an entry list, latest binding first.
pub open spec fn slookup(entries: Seq<(String, i64)>, k: Seq<char>) -> Option<i64>
    decreases entries,
{
    if entries.len() == 0 {
        None
    } else if entries.last().0@ == k {
        Some(entries.last().1)
    } else {
        slookup(entries.drop_last(), k)
    }
}

/// The variable store: the one global mapping from identifier name (case- and
/// character-sensitive) to signed 64-bit value.  Its mathematical value is a
/// `Map` from name to value; keys are unique.
#[derive(Debug)]
pub struct Store {
    entries: Vec<(String, i64)>,
}

impl View for Store {
    type V = Map<Seq<char>, i64>;

    closed spec fn view(&self) -> Map<Seq<char>, i64> {
        Map::new(
            |k: Seq<char>| slookup(self.entries@, k) is Some,
            |k: Seq<char>| slookup(self.entries@, k)->Some_0,
        )
    }
}

/// Updating the entry holding a key rebinds that key and nothing else.
proof fn lemma_slookup_update(s: Seq<(String, i64)>, i: int, p: (String, i64), k2: Seq<char>)
    requires
        0 <= i < s.len(),
        s[i].0@ == p.0@,
        forall|j: int| i < j < s.len() ==> s[j].0@ != s[i].0@,
    ensures
        slookup(s.update(i, p), k2) == (if k2 == p.0@ {
            Some(p.1)
        } else {
            slookup(s, k2)
        }),
    decreases s.len(),
{
    let s2 = s.update(i, p);
    if i == s.len() - 1 {
        assert(s2.last() == p);
        assert(s2.drop_last() =~= s.drop_last());
    } else {
        assert(s2.last() == s.last());
        assert(s2.drop_last() =~= s.drop_last().update(i, p));
        lemma_slookup_update(s.drop_last(), i, p, k2);
    }
}

impl Store {
    /// Unique keys: no name is bound twice.
    pub closed spec fn inv(&self) -> bool {
        forall|i: int, j: int|
            0 <= i < j < self.entries@.len() ==> self.entries@[i].0@ != self.entries@[j].0@
    }

    /// The empty store.
    pub fn new() -> (s: Store)
        ensures
            s@ == Map::<Seq<char>, i64>::empty(),
            s.inv(),
    {
        let s = Store { entries: Vec::new() };
        proof {
            assert(s@ =~= Map::<Seq<char>, i64>::empty());
        }
        s
    }

    /// The value bound to `name`, if any.
    pub fn get(&self, name: &String) -> (r: Option<i64>)
        ensures
            match r {
                Some(v) => self@.dom().contains(name@) && self@[name@] == v,
                None => !self@.dom().contains(name@),
            },
    {
        let ghost s0 = self.entries@;
        let mut i: usize = self.entries.len();
        proof {
            assert(s0.take(s0.len() as int) =~= s0);
        }
        loop
            invariant
                i <= s0.len(),
                self.entries@ == s0,
                slookup(s0, name@) == slookup(s0.take(i as int), name@),
            ensures
                slookup(s0, name@) == slookup(s0.take(i as int), name@),
                i == 0,
            decreases i,
        {
            if i == 0 {
                break ;
            }
            i = i - 1;
            proof {
                assert(s0.take(i as int + 1).last() == s0[i as int]);
                assert(s0.take(i as int + 1).drop_last() =~= s0.take(i as int));
            }
            if self.entries[i].0 == *name {
                return Some(self.entries[i].1);
            }
        }
        proof {
            assert(s0.take(0) =~= Seq::<(String, i64)>::empty());
        }
        None
    }

    /// Bind `name` to `value`, overwriting any earlier binding.
    #[verifier::loop_isolation(false)]
    pub fn set(&mut self, name: String, value: i64)
        requires
            old(self).inv(),
        ensures
            final(self).inv(),
            final(self)@ == old(self)@.insert(name@, value),
    {
        let ghost s0 = self.entries@;
        let ghost nm = name@;
        let new_pair: (String, i64) = (name, value);
        let ghost np = new_pair;
        proof {
            assert(np.0@ == nm && np.1 == value);
        }
        let mut i: usize = self.entries.len();
        while i > 0
            invariant
                i <= s0.len(),
                self.entries@ == s0,
                forall|j: int| i <= j < s0.len() ==> s0[j].0@ != nm,
            decreases i,
        {
            i = i - 1;
            if self.entries[i].0 == new_pair.0 {
                self.entries.set(i, new_pair);
                proof {
                    let s2 = self.entries@;
                    assert(s2 == s0.update(i as int, np));
                    assert(s0.update(i as int, np)[i as int] == np);
                    assert forall|k2: Seq<char>|
                        slookup(s2, k2) == (if k2 == nm {
                            Some(value)
                        } else {
                            slookup(s0, k2)
                        }) by {
                        lemma_slookup_update(s0, i as int, np, k2);
                    }
                    assert(self@ =~= old(self)@.insert(nm, value));
                }
                return ;
            }
        }
        self.entries.push(new_pair);
        proof {
            let s2 = self.entries@;
            assert(s2 == s0.push(np));
            assert(s0.push(np).last() == np);
            assert(s2.drop_last() =~= s0);
            assert forall|k2: Seq<char>|
                slookup(s2, k2) == (if k2 == nm {
                    Some(value)
                } else {
                    slookup(s0, k2)
                }) by {
                if k2 != nm {
                    assert(slookup(s2, k2) == slookup(s0, k2));
                }
            }
            assert(self@ =~= old(self)@.insert(nm, value));
        }
    }
}

/// Unary negation with 64-bit wrap-around: the minimum value is its own
/// negation.
pub open spec fn neg_wrap(v: i64) -> i64 {
    if v == i64::MIN {
        i64::MIN
    } else {
        (-(v as int)) as i64
    }
}

/// Truncating division with 64-bit wrap-around, for a nonzero divisor: the
/// one overflowing case (the minimum value divided by minus one) wraps back
/// to the minimum value.
pub open spec fn div_wrap(l: i64, r: i64) -> i64
    recommends
        r != 0,
{
    match l.checked_div(r) {
        Some(q) => q,
        None => i64::MIN,
    }
}

/// The value a 64-bit unsigned literal denotes in the signed store: two's
/// complement wrap-around.
pub open spec fn literal_value(n: u64) -> i64 {
    if n <= i64::MAX as u64 {
        n as i64
    } else {
        (n - 0x1_0000_0000_0000_0000) as i64
    }
}

/// What evaluating a node at value position yields: a signed 64-bit value, or
/// the first runtime failure.  Binary operands evaluate left to right.
pub open spec fn spec_visit_value(t: TreeS, env: Map<Seq<char>, i64>) -> Result<i64, ErrS>
    decreases t,
{
    match t.tag {
        TokenS::Id(name) => if env.dom().contains(name) {
            Ok(env[name])
        } else {
            Err(ErrS::RuntimeUndefined { name })
        },
        TokenS::Integer(n) => Ok(literal_value(n)),
        TokenS::Unary(c) => if (c == '+' || c == '-') && t.kids.len() >= 1 {
            match spec_visit_value(t.kids[0], env) {
                Ok(v) => Ok(
                    if c == '+' {
                        v
                    } else {
                        neg_wrap(v)
                    },
                ),
                Err(e) => Err(e),
            }
        } else {
            Err(ErrS::RuntimeBadNode)
        },
        TokenS::Op1(c) => if (c == '+' || c == '-') && t.kids.len() >= 2 {
            match spec_visit_value(t.kids[0], env) {
                Ok(l) => match spec_visit_value(t.kids[1], env) {
                    Ok(r) => Ok(
                        if c == '+' {
                            vstd::wrapping::i64_specs::wrapping_add(l, r)
                        } else {
                            vstd::wrapping::i64_specs::wrapping_sub(l, r)
                        },
                    ),
                    Err(e) => Err(e),
                },
                Err(e) => Err(e),
            }
        } else {
            Err(ErrS::RuntimeBadNode)
        },
        TokenS::Op2(c) => if (c == '*' || c == '/') && t.kids.len() >= 2 {
            match spec_visit_value(t.kids[0], env) {
                Ok(l) => match spec_visit_value(t.kids[1], env) {
                    Ok(r) => if c == '*' {
                        Ok(vstd::wrapping::i64_specs::wrapping_mul(l, r))
                    } else if r == 0 {
                        Err(ErrS::RuntimeDivZero)
                    } else {
                        Ok(div_wrap(l, r))
                    },
                    Err(e) => Err(e),
                },
                Err(e) => Err(e),
            }
        } else {
            Err(ErrS::RuntimeBadNode)
        },
        _ => Err(ErrS::RuntimeBadNode),
    }
}

/// What a statement visit leaves behind: the store as it stands when the
/// visit ends, and the first failure if one aborted it.
pub struct VisitOut {
    /// The store after the visit.
    pub env: Map<Seq<char>, i64>,
    /// The failure that aborted the visit, if any.
    pub err: Option<ErrS>,
}

/// What visiting a node at statement position does to the store.  A grouping
/// node runs its children in order; an assignment binds the name in child 0
/// to the value of child 1; anything else is an internal-consistency failure.
pub open spec fn spec_visit(t: TreeS, env: Map<Seq<char>, i64>) -> VisitOut
    decreases t, 1int,
{
    match t.tag {
        TokenS::Assign => if t.kids.len() >= 2 {
            match t.kids[0].tag {
                TokenS::Id(name) => match spec_visit_value(t.kids[1], env) {
                    Ok(v) => VisitOut { env: env.insert(name, v), err: None },
                    Err(e) => VisitOut { env, err: Some(e) },
                },
                _ => VisitOut { env, err: Some(ErrS::RuntimeBadNode) },
            }
        } else {
            VisitOut { env, err: Some(ErrS::RuntimeBadNode) }
        },
        TokenS::Other => spec_visit_seq(t.kids, env),
        _ => VisitOut { env, err: Some(ErrS::RuntimeBadNode) },
    }
}

/// Visit a list of statements in order, stopping at the first failure.
pub open spec fn spec_visit_seq(ts: Seq<TreeS>, env: Map<Seq<char>, i64>) -> VisitOut
    decreases ts, 0int,
{
    if ts.len() == 0 {
        VisitOut { env, err: None }
    } else {
        let first = spec_visit(ts[0], env);
        match first.err {
            Some(_) => first,
            None => spec_visit_seq(ts.subrange(1, ts.len() as int), first.env),
        }
    }
}

/// The evaluator: one global variable store, created empty before evaluation
/// begins and mutated only by assignment statements.
#[derive(Debug)]
pub struct Visit {
    /// The one global store.
    global_scope: Store,
}

impl View for Visit {
    type V = Map<Seq<char>, i64>;

    closed spec fn view(&self) -> Map<Seq<char>, i64> {
        self.global_scope@
    }
}

impl Visit {
    /// Well-formedness of the store.
    pub closed spec fn inv(&self) -> bool {
        self.global_scope.inv()
    }

    /// A fresh evaluator with an empty store.
    pub fn new() -> (v: Visit)
        ensures
            v@ == Map::<Seq<char>, i64>::empty(),
            v.inv(),
    {
        Visit { global_scope: Store::new() }
    }

    /// The value bound to `name`, if any.
    pub fn get(&self, name: &String) -> (r: Option<i64>)
        ensures
            match r {
                Some(v) => self@.dom().contains(name@) && self@[name@] == v,
                None => !self@.dom().contains(name@),
            },
    {
        self.global_scope.get(name)
    }

    /// The name an assignment's left side resolves to: the node must be an
    /// identifier leaf; anything else is an internal-consistency failure.
    pub fn vist_Var(&mut self, root: &TreeNode) -> (r: Result<String, InterpError>)
        ensures
            *final(self) == *old(self),
            match (tree_view(*root).tag, r) {
                (TokenS::Id(name), Ok(s)) => s@ == name,
                (TokenS::Id(name), Err(_)) => false,
                (_, Err(e)) => e@ == ErrS::RuntimeBadNode,
                _ => false,
            },
    {
        match &root.node {
            Token::Id(s) => Ok(s.clone()),
            _ => Err(InterpError::RuntimeBadNode),
        }
    }

    /// Evaluate a node at value position.
    pub fn visit_value(&self, root: &TreeNode) -> (r: Result<i64, InterpError>)
        ensures
            match (spec_visit_value(tree_view(*root), self@), r) {
                (Ok(v), Ok(rv)) => rv == v,
                (Err(eS), Err(e)) => e@ == eS,
                _ => false,
            },
        decreases *root,
    {
        proof {
            lemma_forest_view(root.sub_nodes@);
        }
        match &root.node {
            Token::Id(s) => match self.global_scope.get(s) {
                Some(v) => Ok(v),
                None => Err(InterpError::RuntimeUndefined { name: s.clone() }),
            },
            Token::Integer(n) => {
                let n = *n;
                if n <= i64::MAX as u64 {
                    Ok(n as i64)
                } else {
                    let m: u64 = n - 0x8000_0000_0000_0000;
                    Ok(i64::MIN + (m as i64))
                }
            },
            Token::Unary(c) => {
                let c = *c;
                if !(c == '+' || c == '-') || root.sub_nodes.len() < 1 {
                    return Err(InterpError::RuntimeBadNode);
                }
                match self.visit_value(&root.sub_nodes[0]) {
                    Ok(v) => Ok(
                        if c == '+' {
                            v
                        } else if v == i64::MIN {
                            i64::MIN
                        } else {
                            -v
                        },
                    ),
                    Err(e) => Err(e),
                }
            },
            Token::Op1(c) => {
                let c = *c;
                if !(c == '+' || c == '-') || root.sub_nodes.len() < 2 {
                    return Err(InterpError::RuntimeBadNode);
                }
                let l = match self.visit_value(&root.sub_nodes[0]) {
                    Ok(v) => v,
                    Err(e) => {
                        return Err(e);
                    },
                };
                let r = match self.visit_value(&root.sub_nodes[1]) {
                    Ok(v) => v,
                    Err(e) => {
                        return Err(e);
                    },
                };
                Ok(
                    if c == '+' {
                        l.wrapping_add(r)
                    } else {
                        l.wrapping_sub(r)
                    },
                )
            },
            Token::Op2(c) => {
                let c = *c;
                if !(c == '*' || c == '/') || root.sub_nodes.len() < 2 {
                    return Err(InterpError::RuntimeBadNode);
                }
                let l = match self.visit_value(&root.sub_nodes[0]) {
                    Ok(v) => v,
                    Err(e) => {
                        return Err(e);
                    },
                };
                let r = match self.visit_value(&root.sub_nodes[1]) {
                    Ok(v) => v,
                    Err(e) => {
                        return Err(e);
                    },
                };
                if c == '*' {
                    Ok(l.wrapping_mul(r))
                } else if r == 0 {
                    Err(InterpError::RuntimeDivZero)
                } else {
                    match l.checked_div(r) {
                        Some(q) => Ok(q),
                        None => Ok(i64::MIN),
                    }
                }
            },
            _ => Err(InterpError::RuntimeBadNode),
        }
    }

    /// Visit a node at statement position, mutating the store; on a failure
    /// the store stands as it did when the failure struck, and the failure is
    /// reported.
    #[verifier::loop_isolation(false)]
    pub fn visit(&mut self, root: &TreeNode) -> (r: Result<(), InterpError>)
        requires
            old(self).inv(),
        ensures
            final(self).inv(),
            ({
                let out = spec_visit(tree_view(*root), old(self)@);
                final(self)@ == out.env && match (out.err, r) {
                    (None, Ok(())) => true,
                    (Some(eS), Err(e)) => e@ == eS,
                    _ => false,
                }
            }),
        decreases *root,
    {
        proof {
            lemma_forest_view(root.sub_nodes@);
        }
        match &root.node {
            Token::Assign => {
                if root.sub_nodes.len() < 2 {
                    return Err(InterpError::RuntimeBadNode);
                }
                let name = match self.vist_Var(&root.sub_nodes[0]) {
                    Ok(s) => s,
                    Err(e) => {
                        return Err(e);
                    },
                };
                let v = match self.visit_value(&root.sub_nodes[1]) {
                    Ok(v) => v,
                    Err(e) => {
                        return Err(e);
                    },
                };
                self.global_scope.set(name, v);
                Ok(())
            },
            Token::Other => {
                let ghost env0 = self@;
                let ghost kids = forest_view(root.sub_nodes@);
                let len = root.sub_nodes.len();
                let mut i: usize = 0;
                proof {
                    assert(kids.subrange(0, len as int) =~= kids);
                }
                while i < len
                    invariant
                        i <= len,
                        self.inv(),
                        spec_visit(tree_view(*root), env0) == spec_visit_seq(
                            kids.subrange(i as int, len as int),
                            self@,
                        ),
                    decreases len - i,
                {
                    let ghost env_i = self@;
                    proof {
                        assert(kids.subrange(i as int, len as int)[0] == kids[i as int]);
                    }
                    match self.visit(&root.sub_nodes[i]) {
                        Ok(()) => {},
                        Err(e) => {
                            proof {
                                let rest = kids.subrange(i as int, len as int);
                                assert(spec_visit_seq(rest, env_i) == spec_visit(
                                    kids[i as int],
                                    env_i,
                                ));
                            }
                            return Err(e);
                        },
                    }
                    proof {
                        assert(kids.subrange(i as int, len as int).subrange(
                            1,
                            (len - i) as int,
                        ) =~= kids.subrange(i as int + 1, len as int));
                    }
                    i = i + 1;
                }
                proof {
                    assert(kids.subrange(len as int, len as int) =~= Seq::<TreeS>::empty());
                }
                Ok(())
            },
            _ => Err(InterpError::RuntimeBadNode),
        }
    }
}

/// What interpreting a source text yields: parse it, then run the program
/// against an initially empty store; the final store, or the first failure.
pub open spec fn spec_interpret(text: Seq<char>) -> Result<Map<Seq<char>, i64>, ErrS> {
    match spec_parse_source(text) {
        Ok(tree) => {
            let out = spec_visit(tree, Map::empty());
            match out.err {
                None => Ok(out.env),
                Some(e) => Err(e),
            }
        },
        Err(e) => Err(e),
    }
}

/// Run a whole source text through the pipeline: lex and parse it, then
/// evaluate the tree against a fresh store.  On success the evaluator holding
/// the final store is returned; the first failure of any stage aborts the run.
pub fn interpret(source: &String) -> (r: Result<Visit, InterpError>)
    ensures
        match (spec_interpret(source@), r) {
            (Ok(m), Ok(v)) => v@ == m && v.inv(),
            (Err(eS), Err(e)) => e@ == eS,
            _ => false,
        },
{
    let mut it = match Interpreter::from(source) {
        Ok(it) => it,
        Err(e) => {
            return Err(e);
        },
    };
    let tree = match it.parse() {
        Ok(t) => t,
        Err(e) => {
            return Err(e);
        },
    };
    let mut vis = Visit::new();
    match vis.visit(&tree) {
        Ok(()) => Ok(vis),
        Err(e) => Err(e),
    }
}

/// On a well-formed expression, evaluation never reports the
/// internal-consistency failure: only an undefined variable or a division by
/// zero can stop it.
pub proof fn lemma_visit_value_no_bad_node(t: TreeS, env: Map<Seq<char>, i64>)
    requires
        wf_expr(t),
    ensures
        match spec_visit_value(t, env) {
            Ok(_) => true,
            Err(e) => e is RuntimeUndefined || e is RuntimeDivZero,
        },
    decreases t,
{
    match t.tag {
        TokenS::Unary(_) => {
            lemma_visit_value_no_bad_node(t.kids[0], env);
        },
        TokenS::Op1(_) => {
            lemma_visit_value_no_bad_node(t.kids[0], env);
            lemma_visit_value_no_bad_node(t.kids[1], env);
        },
        TokenS::Op2(_) => {
            lemma_visit_value_no_bad_node(t.kids[0], env);
            lemma_visit_value_no_bad_node(t.kids[1], env);
        },
        _ => {},
    }
}

/// On a well-formed statement, a visit never reports the
/// internal-consistency failure.
pub proof fn lemma_visit_no_bad_node(t: TreeS, env: Map<Seq<char>, i64>)
    requires
        wf_stmt(t),
    ensures
        match spec_visit(t, env).err {
            Some(e) => e is RuntimeUndefined || e is RuntimeDivZero,
            None => true,
        },
    decreases t, 1int,
{
    match t.tag {
        TokenS::Assign => {
            lemma_visit_value_no_bad_node(t.kids[1], env);
        },
        TokenS::Other => {
            lemma_visit_seq_no_bad_node(t.kids, env);
        },
        _ => {},
    }
}

/// On a list of well-formed statements, a visit never reports the
/// internal-consistency failure.
pub proof fn lemma_visit_seq_no_bad_node(ts: Seq<TreeS>, env: Map<Seq<char>, i64>)
    requires
        wf_stmt_seq(ts),
    ensures
        match spec_visit_seq(ts, env).err {
            Some(e) => e is RuntimeUndefined || e is RuntimeDivZero,
            None => true,
        },
    decreases ts, 0int,
{
    if ts.len() > 0 {
        lemma_visit_no_bad_node(ts[0], env);
        let first = spec_visit(ts[0], env);
        if first.err is None {
            lemma_visit_seq_no_bad_node(ts.subrange(1, ts.len() as int), first.env);
        }
    }
}

/// A parsed program always evaluates cleanly or fails with a genuine runtime
/// failure — an undefined variable or a division by zero.  The
/// internal-consistency failure cannot arise from a tree the parser built,
/// whatever store the evaluation starts from.
pub proof fn lemma_parsed_programs_evaluate(text: Seq<char>, env: Map<Seq<char>, i64>)
    ensures
        match spec_parse_source(text) {
            Ok(tree) => match spec_visit(tree, env).err {
                Some(e) => e is RuntimeUndefined || e is RuntimeDivZero,
                None => true,
            },
            Err(_) => true,
        },
{
    lemma_parse_source_wf(text);
    match spec_parse_source(text) {
        Ok(tree) => {
            lemma_visit_no_bad_node(tree, env);
        },
        Err(_) => {},
    }
}

} // verus!
