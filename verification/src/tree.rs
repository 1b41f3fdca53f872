//! The syntax tree that a parse produces, and its mathematical model.

use vstd::prelude::*;

verus! {

/// The model of a [`Node`]: a label and, where the node has any, its children
/// from left to right.
#[verifier::ext_equal]
pub struct Tree {
    pub emit: Seq<char>,
    pub children: Option<Seq<Tree>>,
}

/// A node of the syntax tree. `children` is `None` where nothing was collected
/// below the node.
#[derive(Debug, PartialEq, Eq)]
pub struct Node {
    pub emit: &'static str,
    pub children: Option<Vec<Node>>,
}

/// The models of a sequence of nodes, in the same order. (The test on `i` is
/// what shows that the recursion ends; `Seq::new` asks for no other `i`.)
pub open spec fn trees_of(nodes: Seq<Node>) -> Seq<Tree>
    decreases nodes,
{
    Seq::new(
        nodes.len(),
        |i: int|
            if 0 <= i < nodes.len() {
                tree_of(nodes[i])
            } else {
                arbitrary()
            },
    )
}

/// The model of one node.
pub open spec fn tree_of(node: Node) -> Tree
    decreases node,
{
    Tree {
        emit: node.emit@,
        children: match node.children {
            None => None,
            Some(v) => Some(trees_of(v@)),
        },
    }
}

impl View for Node {
    type V = Tree;

    open spec fn view(&self) -> Tree {
        tree_of(*self)
    }
}

/// The models of two sequences of nodes laid end to end are the models of each,
/// laid end to end.
pub proof fn lemma_trees_of_concat(left: Seq<Node>, right: Seq<Node>)
    ensures
        trees_of(left + right) == trees_of(left) + trees_of(right),
{
    assert(trees_of(left + right) =~= trees_of(left) + trees_of(right));
}

} // verus!
