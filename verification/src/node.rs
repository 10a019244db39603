//! E-nodes: an operator name applied to class ids.

use crate::model::NodeView;
use vstd::prelude::*;

verus! {

/// An e-node. A leaf (a literal, a symbol) has no children; its name is its
/// payload. Two nodes are the same node when name and children agree.
#[derive(Debug, Clone, PartialEq, Eq)]
pub struct Node {
    pub op: String,
    pub children: Vec<usize>,
}

impl View for Node {
    type V = NodeView;

    open spec fn view(&self) -> NodeView {
        NodeView { op: self.op@, children: self.children@ }
    }
}

/// The nodes as values.
pub open spec fn views(nodes: Seq<Node>) -> Seq<NodeView> {
    nodes.map_values(|n: Node| n@)
}

/// An e-class as it is read off a graph: the representative's id and the
/// nodes stored in the class.
#[derive(Debug, Clone, PartialEq, Eq)]
pub struct EClass {
    pub id: usize,
    pub nodes: Vec<Node>,
}

/// The ids of the classes, in order.
pub open spec fn ids_of(classes: Seq<EClass>) -> Seq<usize> {
    classes.map_values(|c: EClass| c.id)
}

impl Node {
    /// The node `op(children)`.
    pub fn new(op: &str, children: Vec<usize>) -> (n: Node)
        ensures
            n@.op == op@,
            n@.children == children@,
    {
        Node { op: op.to_owned(), children }
    }

    /// The childless node `op`.
    pub fn leaf(op: &str) -> (n: Node)
        ensures
            n@.op == op@,
            n@.children.len() == 0,
    {
        Node { op: op.to_owned(), children: Vec::new() }
    }

    /// This node's operator over other children.
    pub fn with_children(&self, children: Vec<usize>) -> (n: Node)
        ensures
            n@.op == self@.op,
            n@.children == children@,
    {
        Node { op: self.op.clone(), children }
    }

    /// A copy of this node.
    pub fn duplicate(&self) -> (n: Node)
        ensures
            n@ == self@,
    {
        let n = Node { op: self.op.clone(), children: self.children.clone() };
        assert(n.children@ =~= self.children@);
        n
    }
}

} // verus!
