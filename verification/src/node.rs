//! Tree nodes and their mathematical view.

use vstd::prelude::*;

verus! {

/// One filesystem entry in a snapshot.
#[derive(Debug, PartialEq, Eq)]
pub struct TreeNode {
    /// Identifier of the entry, unique in the tree: its path.
    pub id: String,
    /// Display name: the base name of the entry.
    pub label: String,
    /// Whether the entry is a directory.
    pub is_directory: bool,
    /// The entries of a directory, in display order. Empty for a file.
    pub children: Vec<TreeNode>,
}

/// What a node is, as a mathematical value.
pub ghost struct NodeView {
    pub id: Seq<char>,
    pub label: Seq<char>,
    pub is_directory: bool,
    pub children: Seq<NodeView>,
}

/// The views of a sequence of nodes, in the same order.
pub open spec fn views(nodes: Seq<TreeNode>) -> Seq<NodeView>
    decreases nodes, 0nat,
{
    if nodes.len() == 0 {
        Seq::empty()
    } else {
        views(nodes.drop_last()).push(node_view(nodes.last()))
    }
}

/// The view of one node: its own fields and the views of its children.
pub open spec fn node_view(node: TreeNode) -> NodeView
    decreases node, 1nat,
{
    NodeView {
        id: node.id@,
        label: node.label@,
        is_directory: node.is_directory,
        children: views(node.children@),
    }
}

impl View for TreeNode {
    type V = NodeView;

    open spec fn view(&self) -> NodeView {
        node_view(*self)
    }
}

/// `views` keeps the length and takes the view of each node in place.
pub proof fn lemma_views(nodes: Seq<TreeNode>)
    ensures
        views(nodes).len() == nodes.len(),
        forall|i: int| 0 <= i < nodes.len() ==> (#[trigger] views(nodes)[i]) == nodes[i]@,
    decreases nodes.len(),
{
    if nodes.len() > 0 {
        lemma_views(nodes.drop_last());
    }
}

impl TreeNode {
    /// A leaf node for a file.
    pub fn file(id: String, label: String) -> (node: TreeNode)
        ensures
            node@ == (NodeView { id: id@, label: label@, is_directory: false, children: seq![] }),
    {
        let node = TreeNode { id, label, is_directory: false, children: Vec::new() };
        assert(node@.children =~= seq![]);
        node
    }

    /// A directory node over the given children, kept in the order given.
    pub fn directory(id: String, label: String, children: Vec<TreeNode>) -> (node: TreeNode)
        ensures
            node@ == (NodeView {
                id: id@,
                label: label@,
                is_directory: true,
                children: views(children@),
            }),
    {
        TreeNode { id, label, is_directory: true, children }
    }
}

} // verus!
