//! Nodes: one JSON value at one position, with its label and its children.

use vstd::prelude::*;
use crate::address::{Address, JsonPointer};

verus! {

/// The mathematical value of a [`Node`].
pub struct Tree {
    pub address: Address,
    pub label: Seq<char>,
    pub children: Seq<Tree>,
}

/// One JSON value at one position of the document.
#[derive(Debug, PartialEq, Eq)]
pub struct Node {
    /// The node's identity among its siblings.
    pub address: JsonPointer,
    /// The text shown for the node.
    pub label: String,
    /// The nodes of the values it holds, in order; none for a scalar.
    pub children: Vec<Node>,
}

/// The mathematical value of a node: its address and label, and the values
/// of its children in order.
pub open spec fn tree_of(node: Node) -> Tree
    decreases node,
{
    Tree {
        address: node.address@,
        label: node.label@,
        children: Seq::new(
            node.children@.len(),
            |i: int|
                if 0 <= i < node.children@.len() {
                    tree_of(node.children@[i])
                } else {
                    arbitrary()
                },
        ),
    }
}

impl View for Node {
    type V = Tree;

    open spec fn view(&self) -> Tree {
        tree_of(*self)
    }
}

/// The view of a sequence of nodes.
pub open spec fn forest_of(nodes: Seq<Node>) -> Seq<Tree> {
    Seq::new(nodes.len(), |i: int| nodes[i]@)
}

/// The view of a node, field by field.
pub proof fn lemma_node_view(node: Node)
    ensures
        node@.address == node.address@,
        node@.label == node.label@,
        node@.children == forest_of(node.children@),
{
    assert(node@.children =~= forest_of(node.children@));
}

/// No address occurs twice among the given siblings.
pub open spec fn siblings_distinct(nodes: Seq<Tree>) -> bool {
    forall|i: int, j: int| 0 <= i < j < nodes.len() ==> nodes[i].address != nodes[j].address
}

/// Siblings have pairwise distinct addresses, here and at every level below.
pub open spec fn addresses_distinct(nodes: Seq<Tree>) -> bool
    decreases nodes,
{
    &&& siblings_distinct(nodes)
    &&& forall|i: int| 0 <= i < nodes.len() ==> addresses_distinct(nodes[i].children)
}

} // verus!
