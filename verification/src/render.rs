//! The diagnostic rendering of a tree: a breadth-first, level-by-level dump.
//! Each node is shown as its tag plus a child count, and each level ends with
//! a newline.  Identifier and integer leaves are always shown with a child
//! count of zero and enqueue nothing, while every other node shows its true
//! count and enqueues its children.
//!
//! [`spec_render`] is the functional specification of the text produced;
//! [`TreeNode::render`] returns exactly that, so rendering is deterministic:
//! equal trees yield equal text.

use vstd::prelude::*;
use crate::ast::{forest_view, lemma_forest_view, tree_view, TreeNode, TreeS};
use crate::token::{Token, TokenS};

verus! {

/// The character of a decimal digit.
pub open spec fn digit_char(d: nat) -> char
    recommends
        d < 10,
{
    ('0' as nat + d) as char
}

/// The decimal text of a number, most significant digit first.
pub open spec fn dec_str(n: nat) -> Seq<char>
    decreases n,
{
    if n < 10 {
        seq![digit_char(n)]
    } else {
        dec_str(n / 10).push(digit_char(n % 10))
    }
}

/// The text a token is shown as.
pub open spec fn token_text(t: TokenS) -> Seq<char> {
    match t {
        TokenS::Eof => "EOF"@,
        TokenS::Op1(c) => "operation: "@ + seq![c],
        TokenS::Op2(c) => "operation: "@ + seq![c],
        TokenS::Lp => "("@,
        TokenS::Rp => ")"@,
        TokenS::Integer(n) => "INTEGER: "@ + dec_str(n as nat),
        TokenS::Unary(c) => "UNARY: "@ + seq![c],
        TokenS::Begin => "BEGIN"@,
        TokenS::End => "END"@,
        TokenS::Dot => "DOT"@,
        TokenS::Assign => "ASSIGN"@,
        TokenS::Semi => "SEMI"@,
        TokenS::Id(s) => "variable: "@ + s,
        TokenS::Other => "Other"@,
    }
}

/// The child count a node is shown with: identifier and integer leaves always
/// show zero; every other node shows its true count.
pub open spec fn shown_count(t: TreeS) -> nat {
    match t.tag {
        TokenS::Id(_) => 0nat,
        TokenS::Integer(_) => 0nat,
        _ => t.kids.len(),
    }
}

/// What a node contributes to the next level: identifier and integer leaves
/// enqueue nothing; every other node enqueues its children.
pub open spec fn enqueue_of(t: TreeS) -> Seq<TreeS> {
    match t.tag {
        TokenS::Id(_) => Seq::empty(),
        TokenS::Integer(_) => Seq::empty(),
        _ => t.kids,
    }
}

/// The text one node is shown as.
pub open spec fn entry_text(t: TreeS) -> Seq<char> {
    "  |"@ + token_text(t.tag) + "("@ + dec_str(shown_count(t)) + ")|  "@
}

/// Render one whole level: the text of its nodes in order, and the queue of
/// the next level.
pub open spec fn render_level(q: Seq<TreeS>) -> (Seq<char>, Seq<TreeS>)
    decreases q.len(),
{
    if q.len() == 0 {
        (Seq::empty(), Seq::empty())
    } else {
        let rest = render_level(q.subrange(1, q.len() as int));
        (entry_text(q[0]) + rest.0, enqueue_of(q[0]) + rest.1)
    }
}

/// The number of nodes in a tree.
pub open spec fn size_of(t: TreeS) -> nat
    decreases t, 1int,
{
    1 + size_of_seq(t.kids)
}

/// The number of nodes in a forest.
pub open spec fn size_of_seq(ts: Seq<TreeS>) -> nat
    decreases ts, 0int,
{
    if ts.len() == 0 {
        0
    } else {
        size_of(ts[0]) + size_of_seq(ts.subrange(1, ts.len() as int))
    }
}

/// Forest sizes add up over concatenation.
proof fn lemma_size_seq_concat(a: Seq<TreeS>, b: Seq<TreeS>)
    ensures
        size_of_seq(a + b) == size_of_seq(a) + size_of_seq(b),
    decreases a.len(),
{
    if a.len() == 0 {
        assert(a + b =~= b);
    } else {
        let t = a + b;
        assert(t[0] == a[0]);
        assert(t.subrange(1, t.len() as int) =~= a.subrange(1, a.len() as int) + b);
        lemma_size_seq_concat(a.subrange(1, a.len() as int), b);
    }
}

/// What a node enqueues is strictly smaller than the node itself.
proof fn lemma_enqueue_size(t: TreeS)
    ensures
        size_of_seq(enqueue_of(t)) < size_of(t),
{
    assert(size_of_seq(Seq::<TreeS>::empty()) == 0);
}

/// Rendering a nonempty level strictly shrinks the queue's total size.
proof fn lemma_render_level_size(q: Seq<TreeS>)
    ensures
        size_of_seq(render_level(q).1) <= size_of_seq(q),
        q.len() > 0 ==> size_of_seq(render_level(q).1) < size_of_seq(q),
    decreases q.len(),
{
    if q.len() > 0 {
        let rest = q.subrange(1, q.len() as int);
        lemma_render_level_size(rest);
        lemma_enqueue_size(q[0]);
        lemma_size_seq_concat(enqueue_of(q[0]), render_level(rest).1);
    }
}

/// Levels render independently: a concatenated queue renders as the two texts
/// and the two next queues, concatenated.
proof fn lemma_render_level_concat(a: Seq<TreeS>, b: Seq<TreeS>)
    ensures
        render_level(a + b).0 == render_level(a).0 + render_level(b).0,
        render_level(a + b).1 == render_level(a).1 + render_level(b).1,
    decreases a.len(),
{
    if a.len() == 0 {
        assert(a + b =~= b);
        assert(render_level(a).0 + render_level(b).0 =~= render_level(b).0);
        assert(render_level(a).1 + render_level(b).1 =~= render_level(b).1);
    } else {
        let t = a + b;
        assert(t[0] == a[0]);
        assert(t.subrange(1, t.len() as int) =~= a.subrange(1, a.len() as int) + b);
        lemma_render_level_concat(a.subrange(1, a.len() as int), b);
        assert(render_level(a + b).0 =~= render_level(a).0 + render_level(b).0);
        assert(render_level(a + b).1 =~= render_level(a).1 + render_level(b).1);
    }
}

/// Render a queue of levels: each level's text, a newline after each level,
/// until the queue is exhausted.  A level's next queue is strictly smaller
/// ([`lemma_render_level_size`]); the comparison makes termination manifest,
/// and its `else` branch is unreachable.
pub open spec fn render_levels(q: Seq<TreeS>) -> Seq<char>
    decreases size_of_seq(q),
{
    if q.len() == 0 {
        Seq::empty()
    } else {
        let lv = render_level(q);
        if size_of_seq(lv.1) < size_of_seq(q) {
            lv.0 + seq!['\n'] + render_levels(lv.1)
        } else {
            Seq::empty()
        }
    }
}

/// The whole rendering of a tree: breadth-first from the root.
pub open spec fn spec_render(t: TreeS) -> Seq<char> {
    render_levels(seq![t])
}

/// The trees a queue of node references stands for.
pub open spec fn queue_view(q: Seq<&TreeNode>) -> Seq<TreeS> {
    Seq::new(q.len(), |i: int| tree_view(*q[i]))
}

/// Appending a reference to the queue appends its tree to the queue's view.
proof fn lemma_queue_view_push(q: Seq<&TreeNode>, n: &TreeNode)
    ensures
        queue_view(q.push(n)) == queue_view(q).push(tree_view(*n)),
{
    assert(queue_view(q.push(n)) =~= queue_view(q).push(tree_view(*n)));
}

/// Relies on `format!` with std's `Display` for `char`: the text of one
/// character is that character alone.
#[verifier::external_body]
fn char_to_string(c: char) -> (s: String)
    ensures
        s@ == seq![c],
{
    format!("{}", c)
}

/// The text of one decimal digit.
fn digit_string(d: u64) -> (s: &'static str)
    requires
        d < 10,
    ensures
        s@ == seq![digit_char(d as nat)],
{
    let r: &'static str = if d == 0 {
        "0"
    } else if d == 1 {
        "1"
    } else if d == 2 {
        "2"
    } else if d == 3 {
        "3"
    } else if d == 4 {
        "4"
    } else if d == 5 {
        "5"
    } else if d == 6 {
        "6"
    } else if d == 7 {
        "7"
    } else if d == 8 {
        "8"
    } else {
        "9"
    };
    proof {
        reveal_strlit("0");
        reveal_strlit("1");
        reveal_strlit("2");
        reveal_strlit("3");
        reveal_strlit("4");
        reveal_strlit("5");
        reveal_strlit("6");
        reveal_strlit("7");
        reveal_strlit("8");
        reveal_strlit("9");
    }
    r
}

/// The decimal text of a number.
pub fn u64_string(n: u64) -> (s: String)
    ensures
        s@ == dec_str(n as nat),
    decreases n,
{
    if n < 10 {
        String::from_str(digit_string(n))
    } else {
        let mut s = u64_string(n / 10);
        s.append(digit_string(n % 10));
        proof {
            assert(s@ =~= dec_str(n as nat));
        }
        s
    }
}

/// The text a token is shown as.
pub fn token_string(t: &Token) -> (s: String)
    ensures
        s@ == token_text(t@),
{
    match t {
        Token::Eof => String::from_str("EOF"),
        Token::Op1(c) => {
            let mut s = String::from_str("operation: ");
            let cs = char_to_string(*c);
            s.append(cs.as_str());
            s
        },
        Token::Op2(c) => {
            let mut s = String::from_str("operation: ");
            let cs = char_to_string(*c);
            s.append(cs.as_str());
            s
        },
        Token::Lp => String::from_str("("),
        Token::Rp => String::from_str(")"),
        Token::Integer(n) => {
            let mut s = String::from_str("INTEGER: ");
            let ns = u64_string(*n);
            s.append(ns.as_str());
            s
        },
        Token::Unary(c) => {
            let mut s = String::from_str("UNARY: ");
            let cs = char_to_string(*c);
            s.append(cs.as_str());
            s
        },
        Token::Begin => String::from_str("BEGIN"),
        Token::End => String::from_str("END"),
        Token::Dot => String::from_str("DOT"),
        Token::Assign => String::from_str("ASSIGN"),
        Token::Semi => String::from_str("SEMI"),
        Token::Id(name) => {
            let mut s = String::from_str("variable: ");
            s.append(name.as_str());
            s
        },
        Token::Other => String::from_str("Other"),
    }
}

/// The text one node is shown as.
fn entry_string(node: &TreeNode) -> (s: String)
    ensures
        s@ == entry_text(tree_view(*node)),
{
    proof {
        lemma_forest_view(node.sub_nodes@);
    }
    let mut s = String::from_str("  |");
    let ts = token_string(&node.node);
    s.append(ts.as_str());
    s.append("(");
    let count: u64 = match &node.node {
        Token::Id(_) => 0,
        Token::Integer(_) => 0,
        _ => node.sub_nodes.len() as u64,
    };
    let cs = u64_string(count);
    s.append(cs.as_str());
    s.append(")|  ");
    proof {
        assert(s@ =~= entry_text(tree_view(*node)));
    }
    s
}

/// Append references to all of a node's children to the queue.
#[verifier::loop_isolation(false)]
fn push_children<'a>(next: &mut Vec<&'a TreeNode>, node: &'a TreeNode)
    ensures
        queue_view(final(next)@) == queue_view(old(next)@) + forest_view(node.sub_nodes@),
{
    proof {
        lemma_forest_view(node.sub_nodes@);
    }
    let ghost base = queue_view(next@);
    let ghost kids = forest_view(node.sub_nodes@);
    let mut j: usize = 0;
    while j < node.sub_nodes.len()
        invariant
            j <= node.sub_nodes@.len(),
            queue_view(next@) == base + kids.take(j as int),
        decreases node.sub_nodes@.len() - j,
    {
        proof {
            lemma_queue_view_push(next@, &node.sub_nodes@[j as int]);
            assert(kids[j as int] == tree_view(node.sub_nodes@[j as int]));
        }
        next.push(&node.sub_nodes[j]);
        proof {
            assert((base + kids.take(j as int)).push(kids[j as int]) =~= base + kids.take(
                j as int + 1,
            ));
        }
        j = j + 1;
    }
    proof {
        assert(kids.take(node.sub_nodes@.len() as int) =~= kids);
    }
}

impl TreeNode {
    /// The breadth-first, level-by-level text of the tree, exactly
    /// [`spec_render`]: rendering is a function of the tree alone.
    #[verifier::loop_isolation(false)]
    pub fn render(&self) -> (s: String)
        ensures
            s@ == spec_render(tree_view(*self)),
    {
        let ghost rootv = tree_view(*self);
        let mut out = String::new();
        let mut cur: Vec<&TreeNode> = Vec::new();
        cur.push(self);
        proof {
            assert(queue_view(cur@) =~= seq![rootv]);
            assert(out@ + render_levels(queue_view(cur@)) =~= spec_render(rootv));
        }
        while cur.len() > 0
            invariant
                spec_render(rootv) == out@ + render_levels(queue_view(cur@)),
            decreases size_of_seq(queue_view(cur@)),
        {
            let ghost q = queue_view(cur@);
            let ghost out0 = out@;
            proof {
                lemma_render_level_size(q);
            }
            let mut next: Vec<&TreeNode> = Vec::new();
            let mut i: usize = 0;
            proof {
                assert(q.take(0) =~= Seq::<TreeS>::empty());
                assert(queue_view(next@) =~= Seq::<TreeS>::empty());
            }
            while i < cur.len()
                invariant
                    i <= cur@.len(),
                    q == queue_view(cur@),
                    out@ == out0 + render_level(q.take(i as int)).0,
                    queue_view(next@) == render_level(q.take(i as int)).1,
                decreases cur@.len() - i,
            {
                let node = cur[i];
                let ghost pre = q.take(i as int);
                let ghost one = seq![q[i as int]];
                proof {
                    assert(tree_view(*node) == q[i as int]);
                    lemma_render_level_concat(pre, one);
                    assert(q.take(i as int + 1) =~= pre + one);
                    assert(one.subrange(1, 1) =~= Seq::<TreeS>::empty());
                    assert(render_level(Seq::<TreeS>::empty()) == (
                        Seq::<char>::empty(),
                        Seq::<TreeS>::empty(),
                    ));
                    assert(render_level(one).0 =~= entry_text(q[i as int]));
                    assert(render_level(one).1 =~= enqueue_of(q[i as int]));
                }
                let es = entry_string(node);
                out.append(es.as_str());
                match &node.node {
                    Token::Id(_) => {},
                    Token::Integer(_) => {},
                    _ => {
                        push_children(&mut next, node);
                    },
                }
                proof {
                    assert(out@ =~= out0 + render_level(q.take(i as int + 1)).0);
                    assert(queue_view(next@) =~= render_level(q.take(i as int + 1)).1);
                }
                i = i + 1;
            }
            proof {
                assert(q.take(cur@.len() as int) =~= q);
            }
            out.append("\n");
            cur = next;
            proof {
                reveal_strlit("\n");
                assert("\n"@ =~= seq!['\n']);
                assert(out@ + render_levels(queue_view(cur@)) =~= spec_render(rootv));
            }
        }
        proof {
            assert(queue_view(cur@).len() == 0);
            assert(render_levels(queue_view(cur@)) =~= Seq::<char>::empty());
            assert(out@ =~= spec_render(rootv));
        }
        out
    }
}

} // verus!
