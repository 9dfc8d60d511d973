//! The abstract syntax tree and its mathematical view.

use vstd::prelude::*;
use crate::token::{Token, TokenS};

verus! {

/// An AST node: a token reused as the node's semantic tag, plus an ordered
/// list of child nodes.  For binary operators child 0 is the left operand and
/// child 1 the right one; a unary operator has its operand as the single
/// child; leaves (identifier, integer literal) have no children; the
/// placeholder tag groups sibling statements.
pub struct TreeNode {
    /// The semantic tag.
    pub node: Token,
    /// The ordered children.
    pub sub_nodes: Vec<TreeNode>,
}

/// The mathematical value of an AST node: the tag's value plus the children's
/// values.
#[verifier::ext_equal]
pub struct TreeS {
    /// The semantic tag.
    pub tag: TokenS,
    /// The ordered children.
    pub kids: Seq<TreeS>,
}

/// The mathematical value of a node, children included.
pub open spec fn tree_view(n: TreeNode) -> TreeS
    decreases n,
{
    TreeS { tag: n.node@, kids: forest_view(n.sub_nodes@) }
}

/// The mathematical values of a list of nodes.
pub open spec fn forest_view(ns: Seq<TreeNode>) -> Seq<TreeS>
    decreases ns,
{
    if ns.len() == 0 {
        Seq::empty()
    } else {
        forest_view(ns.drop_last()).push(tree_view(ns.last()))
    }
}

impl View for TreeNode {
    type V = TreeS;

    open spec fn view(&self) -> TreeS {
        tree_view(*self)
    }
}

impl TreeNode {
    /// A leaf node: a tag with no children.
    pub fn leaf(t: Token) -> (n: TreeNode)
        ensures
            tree_view(n) == (TreeS { tag: t@, kids: Seq::<TreeS>::empty() }),
    {
        let n = TreeNode { node: t, sub_nodes: Vec::new() };
        proof {
            assert(forest_view(n.sub_nodes@) =~= Seq::<TreeS>::empty());
        }
        n
    }

    /// A node with one child.
    pub fn unary(t: Token, operand: TreeNode) -> (n: TreeNode)
        ensures
            tree_view(n) == (TreeS { tag: t@, kids: seq![tree_view(operand)] }),
    {
        let ghost kid = tree_view(operand);
        let mut kids: Vec<TreeNode> = Vec::new();
        proof {
            lemma_forest_view_push(kids@, operand);
        }
        kids.push(operand);
        let n = TreeNode { node: t, sub_nodes: kids };
        proof {
            assert(forest_view(Seq::<TreeNode>::empty()) == Seq::<TreeS>::empty());
            assert(forest_view(n.sub_nodes@) =~= seq![kid]);
        }
        n
    }

    /// A node with a left and a right child, in that order.
    pub fn binary(t: Token, left: TreeNode, right: TreeNode) -> (n: TreeNode)
        ensures
            tree_view(n) == (TreeS { tag: t@, kids: seq![tree_view(left), tree_view(right)] }),
    {
        let ghost lv = tree_view(left);
        let ghost rv = tree_view(right);
        let mut kids: Vec<TreeNode> = Vec::new();
        proof {
            lemma_forest_view_push(kids@, left);
            lemma_forest_view_push(kids@.push(left), right);
        }
        kids.push(left);
        kids.push(right);
        let n = TreeNode { node: t, sub_nodes: kids };
        proof {
            assert(forest_view(Seq::<TreeNode>::empty()) == Seq::<TreeS>::empty());
            assert(forest_view(n.sub_nodes@) =~= seq![lv, rv]);
        }
        n
    }

    /// A grouping node over an ordered list of children.
    pub fn group(t: Token, kids: Vec<TreeNode>) -> (n: TreeNode)
        ensures
            tree_view(n) == (TreeS { tag: t@, kids: forest_view(kids@) }),
    {
        TreeNode { node: t, sub_nodes: kids }
    }
}

/// A shape the evaluator accepts at value position: leaves are identifiers or
/// integer literals, the unary marker carries a sign and one operand, and the
/// binary operators carry a recognized character and two operands.
pub open spec fn wf_expr(t: TreeS) -> bool
    decreases t,
{
    match t.tag {
        TokenS::Id(_) => true,
        TokenS::Integer(_) => true,
        TokenS::Unary(c) => (c == '+' || c == '-') && t.kids.len() == 1 && wf_expr(t.kids[0]),
        TokenS::Op1(c) => (c == '+' || c == '-') && t.kids.len() == 2 && wf_expr(t.kids[0])
            && wf_expr(t.kids[1]),
        TokenS::Op2(c) => (c == '*' || c == '/') && t.kids.len() == 2 && wf_expr(t.kids[0])
            && wf_expr(t.kids[1]),
        _ => false,
    }
}

/// A shape the evaluator accepts at statement position: a grouping node over
/// statements, or an assignment of a well-formed expression to an identifier.
pub open spec fn wf_stmt(t: TreeS) -> bool
    decreases t, 1int,
{
    match t.tag {
        TokenS::Other => wf_stmt_seq(t.kids),
        TokenS::Assign => t.kids.len() == 2 && (t.kids[0].tag is Id) && wf_expr(t.kids[1]),
        _ => false,
    }
}

/// Every node of the list is a well-formed statement.
pub open spec fn wf_stmt_seq(ts: Seq<TreeS>) -> bool
    decreases ts, 0int,
{
    if ts.len() == 0 {
        true
    } else {
        wf_stmt(ts[0]) && wf_stmt_seq(ts.subrange(1, ts.len() as int))
    }
}

/// A well-formed statement appended to a list of well-formed statements
/// leaves the list well-formed.
pub proof fn lemma_wf_stmt_seq_push(ts: Seq<TreeS>, t: TreeS)
    requires
        wf_stmt_seq(ts),
        wf_stmt(t),
    ensures
        wf_stmt_seq(ts.push(t)),
    decreases ts.len(),
{
    assert(ts.push(t)[0] == if ts.len() == 0 {
        t
    } else {
        ts[0]
    });
    if ts.len() == 0 {
        assert(ts.push(t).subrange(1, 1) =~= Seq::<TreeS>::empty());
        assert(wf_stmt_seq(Seq::<TreeS>::empty()));
    } else {
        assert(ts.push(t).subrange(1, ts.len() as int + 1) =~= ts.subrange(
            1,
            ts.len() as int,
        ).push(t));
        lemma_wf_stmt_seq_push(ts.subrange(1, ts.len() as int), t);
    }
}

/// Appending a node to a forest appends its view to the forest's view.
pub proof fn lemma_forest_view_push(ns: Seq<TreeNode>, n: TreeNode)
    ensures
        forest_view(ns.push(n)) == forest_view(ns).push(tree_view(n)),
{
    assert(ns.push(n).drop_last() =~= ns);
    assert(ns.push(n).last() == n);
    assert(forest_view(ns.push(n)) == forest_view(ns.push(n).drop_last()).push(
        tree_view(ns.push(n).last()),
    ));
}

/// A forest's view has the same length as the forest and views each node in
/// place.
pub proof fn lemma_forest_view(ns: Seq<TreeNode>)
    ensures
        forest_view(ns).len() == ns.len(),
        forall|i: int| 0 <= i < ns.len() ==> forest_view(ns)[i] == tree_view(ns[i]),
    decreases ns,
{
    if ns.len() > 0 {
        lemma_forest_view(ns.drop_last());
    }
}

} // verus!
