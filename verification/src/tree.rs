//! The layout tree: nodes, their kinds, and paths into a tree.

use vstd::prelude::*;

verus! {

/// The kind of a node of the layout tree.
#[derive(Clone, Copy, Debug, PartialEq, Eq, Structural)]
pub enum NodeType {
    /// The root of the tree.
    Root,
    /// A screen.
    Output,
    /// A workspace.
    Workspace,
    /// A tiled container: a window, or a layout that holds windows.
    Con,
    /// A floating container.
    FloatingCon,
    /// Any other kind that a compositor may report.
    Other,
}

/// One node of a layout snapshot, with the subtree below it.
///
/// A node owns its children: the ordinary ones in `nodes`, the floating ones
/// in `floating_nodes`.
#[derive(Debug, PartialEq, Eq)]
pub struct Node {
    /// The number by which the compositor knows the node.
    pub id: i64,
    /// The name on display: a window's title, a workspace's label.
    pub name: Option<String>,
    /// The kind of the node.
    pub node_type: NodeType,
    /// Whether the node has the input focus.
    pub focused: bool,
    /// The number of a workspace.
    pub num: Option<i32>,
    /// The application id of a window.
    pub app_id: Option<String>,
    /// The class of a window.
    pub class: Option<String>,
    /// The ordinary children, in their order.
    pub nodes: Vec<Node>,
    /// The floating children, in their order.
    pub floating_nodes: Vec<Node>,
}

impl Node {
    /// A container, tiled or floating.
    pub open spec fn is_container(&self) -> bool {
        self.node_type == NodeType::Con || self.node_type == NodeType::FloatingCon
    }

    /// A window is a container that carries a name.
    pub open spec fn is_window(&self) -> bool {
        self.is_container() && self.name is Some
    }

    /// The children in the order in which the tree is walked: the ordinary
    /// ones first, then the floating ones.
    pub open spec fn children(&self) -> Seq<Node> {
        self.nodes@ + self.floating_nodes@
    }

    /// Whether the node is a container, tiled or floating.
    pub fn is_container_node(&self) -> (b: bool)
        ensures
            b == self.is_container(),
    {
        match self.node_type {
            NodeType::Con | NodeType::FloatingCon => true,
            _ => false,
        }
    }

    /// Whether the node is a workspace.
    pub fn is_workspace_node(&self) -> (b: bool)
        ensures
            b == (self.node_type == NodeType::Workspace),
    {
        match self.node_type {
            NodeType::Workspace => true,
            _ => false,
        }
    }

    /// Whether the node counts as a window.
    pub fn is_window_node(&self) -> (b: bool)
        ensures
            b == self.is_window(),
    {
        self.is_container_node() && self.name.is_some()
    }
}

/// The nodes that a list of references points to.
pub open spec fn nodes_of(refs: Seq<&Node>) -> Seq<Node> {
    refs.map_values(|r: &Node| *r)
}

/// Whether `path` leads from `node` to a node of its subtree. A path holds,
/// step by step, the position of the child to go down to; the empty path
/// stays at `node`.
pub open spec fn valid_path(node: Node, path: Seq<int>) -> bool
    decreases path.len(),
{
    path.len() == 0 || (0 <= path[0] < node.children().len() && valid_path(
        node.children()[path[0]],
        path.drop_first(),
    ))
}

/// The node that `path` leads to from `node`.
pub open spec fn node_at(node: Node, path: Seq<int>) -> Node
    decreases path.len(),
{
    if path.len() == 0 {
        node
    } else {
        node_at(node.children()[path[0]], path.drop_first())
    }
}

/// Whether a depth-first walk, which goes to a node before it goes to the
/// node's children and takes the children in their order, comes to the node
/// at `first` before it comes to the node at `second`.
pub open spec fn walk_before(first: Seq<int>, second: Seq<int>) -> bool
    decreases first.len(),
{
    if second.len() == 0 {
        false
    } else if first.len() == 0 {
        true
    } else if first[0] != second[0] {
        first[0] < second[0]
    } else {
        walk_before(first.drop_first(), second.drop_first())
    }
}

/// The path that goes to the child at `position` and then along `rest`.
pub open spec fn path_through(position: int, rest: Seq<int>) -> Seq<int> {
    seq![position] + rest
}

/// Whether two trees have the same shape and agree, node by node, on the
/// kinds and on the focus.
pub open spec fn same_frame(a: Node, b: Node) -> bool
    decreases a,
{
    &&& a.node_type == b.node_type
    &&& a.focused == b.focused
    &&& a.nodes@.len() == b.nodes@.len()
    &&& a.floating_nodes@.len() == b.floating_nodes@.len()
    &&& forall|k: int| 0 <= k < a.nodes@.len() ==> same_frame(a.nodes@[k], b.nodes@[k])
    &&& forall|k: int|
        0 <= k < a.floating_nodes@.len() ==> same_frame(a.floating_nodes@[k], b.floating_nodes@[k])
}

/// A valid path stays valid when it is made one step longer, to a child of
/// the node that it leads to, and then leads to that child.
pub proof fn lemma_node_at_push(root: Node, path: Seq<int>, position: int)
    requires
        valid_path(root, path),
        0 <= position < node_at(root, path).children().len(),
    ensures
        valid_path(root, path.push(position)),
        node_at(root, path.push(position)) == node_at(root, path).children()[position],
    decreases path.len(),
{
    let longer = path.push(position);
    if path.len() == 0 {
        let child = root.children()[position];
        assert(longer.drop_first() =~= Seq::<int>::empty());
        assert(valid_path(child, longer.drop_first()));
        assert(node_at(child, longer.drop_first()) == child);
    } else {
        let child = root.children()[path[0]];
        lemma_node_at_push(child, path.drop_first(), position);
        assert(longer.drop_first() =~= path.drop_first().push(position));
        assert(longer[0] == path[0]);
    }
}

/// A tree has the frame of itself.
pub proof fn lemma_same_frame_reflexive(node: Node)
    ensures
        same_frame(node, node),
    decreases node,
{
    assert forall|k: int| 0 <= k < node.nodes@.len() implies same_frame(
        node.nodes@[k],
        node.nodes@[k],
    ) by {
        lemma_same_frame_reflexive(node.nodes@[k]);
    }
    assert forall|k: int| 0 <= k < node.floating_nodes@.len() implies same_frame(
        node.floating_nodes@[k],
        node.floating_nodes@[k],
    ) by {
        lemma_same_frame_reflexive(node.floating_nodes@[k]);
    }
}

} // verus!
