//! The workspace that holds the input focus.

use crate::error::UpdateError;
use crate::tree::{
    lemma_node_at_push, node_at, nodes_of, path_through, same_frame, valid_path, walk_before, Node,
    NodeType,
};
use vstd::prelude::*;

verus! {

/// The nearest workspace on a stack of ancestors. The stack grows at its
/// end: the last entry is the nearest ancestor.
pub open spec fn nearest_workspace(parents: Seq<Node>) -> Option<Node>
    decreases parents.len(),
{
    if parents.len() == 0 {
        None
    } else if parents.last().node_type == NodeType::Workspace {
        Some(parents.last())
    } else {
        nearest_workspace(parents.drop_last())
    }
}

/// The workspace that `node` gives the focus to, if it gives it to any: a
/// focused workspace names itself, a focused container names the nearest
/// workspace above it, and any other node names none.
pub open spec fn focus_owner(parents: Seq<Node>, node: Node) -> Option<Node> {
    if !node.focused {
        None
    } else if node.node_type == NodeType::Workspace {
        Some(node)
    } else if node.is_container() {
        nearest_workspace(parents)
    } else {
        None
    }
}

/// The workspace that the search finds in the subtree under `node`: the one
/// named by the first node of a depth-first walk that names any. The walk
/// looks at a node, then at its ordinary children, then at its floating
/// children. `parents` is the stack on entry; each child is put on the stack
/// before the walk goes down to it, so the node where the search starts is
/// the only node of the subtree that never stands on it.
pub open spec fn focus_search(parents: Seq<Node>, node: Node) -> Option<Node>
    decreases node,
{
    match focus_owner(parents, node) {
        Some(w) => Some(w),
        None => match focus_search_all(parents, node.nodes@) {
            Some(w) => Some(w),
            None => focus_search_all(parents, node.floating_nodes@),
        },
    }
}

/// The search through a row of children of one node, first child first.
pub open spec fn focus_search_all(parents: Seq<Node>, nodes: Seq<Node>) -> Option<Node>
    decreases nodes,
{
    if nodes.len() == 0 {
        None
    } else {
        match focus_search_all(parents, nodes.drop_last()) {
            Some(w) => Some(w),
            None => focus_search(parents.push(nodes.last()), nodes.last()),
        }
    }
}

/// Whether the reference `found` points to the node `expected`, or whether
/// both are missing.
pub open spec fn found_is(found: Option<&Node>, expected: Option<Node>) -> bool {
    match found {
        Some(w) => expected == Some(*w),
        None => expected is None,
    }
}

/// Goes through the stack from the nearest ancestor to the furthest and
/// returns the first workspace it meets.
fn scan_parents<'a>(parents: &Vec<&'a Node>) -> (found: Option<&'a Node>)
    ensures
        found_is(found, nearest_workspace(nodes_of(parents@))),
{
    let ghost all = nodes_of(parents@);
    let mut k: usize = parents.len();
    assert(all.take(k as int) =~= all);
    while k > 0
        invariant
            k <= parents.len(),
            all == nodes_of(parents@),
            nearest_workspace(all) == nearest_workspace(all.take(k as int)),
        decreases k,
    {
        k -= 1;
        let parent: &'a Node = parents[k];
        proof {
            let upto = all.take(k + 1);
            assert(upto.last() == *parent);
            assert(upto.drop_last() =~= all.take(k as int));
        }
        if parent.is_workspace_node() {
            return Some(parent);
        }
    }
    None
}

/// Searches the subtrees of a row of children of `node`, first child first.
/// Each child stands on the stack while its subtree is searched.
fn search_children<'a>(
    parents: &mut Vec<&'a Node>,
    node: &'a Node,
    children: &'a Vec<Node>,
) -> (found: Option<&'a Node>)
    requires
        children == node.nodes || children == node.floating_nodes,
    ensures
        final(parents)@ == old(parents)@,
        found_is(found, focus_search_all(nodes_of(old(parents)@), children@)),
    decreases node, 0nat,
{
    let ghost above = nodes_of(parents@);
    let mut i: usize = 0;
    while i < children.len()
        invariant
            i <= children.len(),
            children == node.nodes || children == node.floating_nodes,
            parents@ == old(parents)@,
            above == nodes_of(parents@),
            focus_search_all(above, children@.take(i as int)) is None,
        decreases children.len() - i,
    {
        let child: &'a Node = &children[i];
        parents.push(child);
        assert(nodes_of(parents@) =~= above.push(*child));
        let found = get_workspace_with_focus_recurse(parents, child);
        parents.pop();
        assert(parents@ =~= old(parents)@);
        proof {
            let upto = children@.take(i + 1);
            assert(upto.last() == *child);
            assert(upto.drop_last() =~= children@.take(i as int));
            if found is None {
                assert(focus_search_all(above, upto) is None);
            } else {
                lemma_search_all_prefix(above, children@, i + 1);
            }
        }
        if found.is_some() {
            return found;
        }
        i += 1;
    }
    assert(children@.take(i as int) =~= children@);
    None
}

/// A find among the first `n` nodes of a row is the find of the whole row.
proof fn lemma_search_all_prefix(parents: Seq<Node>, nodes: Seq<Node>, n: int)
    requires
        0 <= n <= nodes.len(),
        focus_search_all(parents, nodes.take(n)) is Some,
    ensures
        focus_search_all(parents, nodes) == focus_search_all(parents, nodes.take(n)),
    decreases nodes.len() - n,
{
    if n < nodes.len() {
        let longer = nodes.take(n + 1);
        assert(longer.drop_last() =~= nodes.take(n));
        lemma_search_all_prefix(parents, nodes, n + 1);
    } else {
        assert(nodes.take(n) =~= nodes);
    }
}

/// Looks for the focused workspace in the subtree under `node`, with the
/// stack of the nodes above it in `parents`. The stack is used while the
/// search runs and is handed back as it came.
pub fn get_workspace_with_focus_recurse<'a>(
    parents: &mut Vec<&'a Node>,
    node: &'a Node,
) -> (found: Option<&'a Node>)
    ensures
        final(parents)@ == old(parents)@,
        found_is(found, focus_search(nodes_of(old(parents)@), *node)),
    decreases node, 1nat,
{
    if node.focused {
        if node.is_workspace_node() {
            return Some(node);
        } else if node.is_container_node() {
            let owner = scan_parents(parents);
            if owner.is_some() {
                return owner;
            }
        }
    }
    let tiled = search_children(parents, node, &node.nodes);
    if tiled.is_some() {
        return tiled;
    }
    search_children(parents, node, &node.floating_nodes)
}

/// The workspace of the snapshot `tree` that holds the focus, or
/// `NoFocusedWorkspace` where the walk through the tree meets no node that
/// names one.
pub fn find_focused_workspace(tree: &Node) -> (found: Result<&Node, UpdateError>)
    ensures
        match found {
            Ok(w) => focus_search(Seq::empty(), *tree) == Some(*w),
            Err(e) => e == UpdateError::NoFocusedWorkspace && focus_search(Seq::empty(), *tree)
                is None,
        },
{
    let mut parents: Vec<&Node> = Vec::new();
    assert(nodes_of(parents@) =~= Seq::<Node>::empty());
    match get_workspace_with_focus_recurse(&mut parents, tree) {
        Some(w) => Ok(w),
        None => Err(UpdateError::NoFocusedWorkspace),
    }
}

/// The workspace that the node at `path` below `node` names, where
/// `parents` is the stack above `node`.
pub open spec fn owner_at(parents: Seq<Node>, node: Node, path: Seq<int>) -> Option<Node>
    decreases path.len(),
{
    if path.len() == 0 {
        focus_owner(parents, node)
    } else {
        let child = node.children()[path[0]];
        owner_at(parents.push(child), child, path.drop_first())
    }
}

/// The path to the first node of a depth-first walk that names a workspace.
pub open spec fn first_namer(parents: Seq<Node>, node: Node) -> Option<Seq<int>>
    decreases node,
{
    if focus_owner(parents, node) is Some {
        Some(Seq::empty())
    } else {
        match first_namer_all(parents, node.nodes@, 0) {
            Some(path) => Some(path),
            None => first_namer_all(parents, node.floating_nodes@, node.nodes@.len() as int),
        }
    }
}

/// The path to the first such node below a row of children, where the first
/// child of the row stands at `offset` among the children of its parent.
pub open spec fn first_namer_all(parents: Seq<Node>, nodes: Seq<Node>, offset: int) -> Option<
    Seq<int>,
>
    decreases nodes,
{
    if nodes.len() == 0 {
        None
    } else {
        match first_namer_all(parents, nodes.drop_last(), offset) {
            Some(path) => Some(path),
            None => match first_namer(parents.push(nodes.last()), nodes.last()) {
                Some(rest) => Some(path_through(offset + nodes.len() - 1, rest)),
                None => None,
            },
        }
    }
}

/// Whether `found` is what the first node of a depth-first walk through the
/// subtree under `root` to name a workspace names, that node standing at
/// `path`; or whether, without a path, no node of the subtree names one.
pub open spec fn names_first(
    parents: Seq<Node>,
    root: Node,
    path: Option<Seq<int>>,
    found: Option<Node>,
) -> bool {
    match path {
        Some(path) => {
            &&& valid_path(root, path)
            &&& found is Some
            &&& owner_at(parents, root, path) == found
            &&& forall|earlier: Seq<int>|
                valid_path(root, earlier) && walk_before(earlier, path) ==> (#[trigger] owner_at(
                    parents,
                    root,
                    earlier,
                )) is None
        },
        None => {
            &&& found is None
            &&& forall|any: Seq<int>|
                valid_path(root, any) ==> (#[trigger] owner_at(parents, root, any)) is None
        },
    }
}

/// What `names_first` says, for a row of children: the path starts at a
/// child of the row and goes on, below that child, to the node that names.
spec fn row_names_first(parents: Seq<Node>, nodes: Seq<Node>, offset: int) -> bool {
    let found = focus_search_all(parents, nodes);
    match first_namer_all(parents, nodes, offset) {
        Some(path) => {
            &&& path.len() > 0
            &&& offset <= path[0] < offset + nodes.len()
            &&& valid_path(nodes[path[0] - offset], path.drop_first())
            &&& found is Some
            &&& owner_at(
                parents.push(nodes[path[0] - offset]),
                nodes[path[0] - offset],
                path.drop_first(),
            ) == found
            &&& forall|k: int, rest: Seq<int>|
                0 <= k < nodes.len() && valid_path(nodes[k], rest) && walk_before(
                    path_through(offset + k, rest),
                    path,
                ) ==> (#[trigger] owner_at(parents.push(nodes[k]), nodes[k], rest)) is None
        },
        None => {
            &&& found is None
            &&& forall|k: int, rest: Seq<int>|
                0 <= k < nodes.len() && valid_path(nodes[k], rest) ==> (#[trigger] owner_at(
                    parents.push(nodes[k]),
                    nodes[k],
                    rest,
                )) is None
        },
    }
}

/// The search through a row returns what the first node below it names.
proof fn lemma_row_names_first(parents: Seq<Node>, nodes: Seq<Node>, offset: int)
    ensures
        row_names_first(parents, nodes, offset),
    decreases nodes,
{
    if nodes.len() > 0 {
        let front = nodes.drop_last();
        let last = nodes.last();
        let position = offset + nodes.len() - 1;
        let above = parents.push(last);
        lemma_row_names_first(parents, front, offset);
        lemma_focus_search_by_path(above, last);
        match first_namer_all(parents, front, offset) {
            Some(path) => {
                assert(front[path[0] - offset] == nodes[path[0] - offset]);
                assert forall|k: int, rest: Seq<int>|
                    0 <= k < nodes.len() && valid_path(nodes[k], rest) && walk_before(
                        path_through(offset + k, rest),
                        path,
                    ) implies (#[trigger] owner_at(parents.push(nodes[k]), nodes[k], rest))
                    is None by {
                    if k < front.len() {
                        assert(front[k] == nodes[k]);
                    }
                }
            },
            None => {
                match first_namer(above, last) {
                    Some(inner) => {
                        let path = path_through(position, inner);
                        assert(path.drop_first() =~= inner);
                        assert forall|k: int, rest: Seq<int>|
                            0 <= k < nodes.len() && valid_path(nodes[k], rest) && walk_before(
                                path_through(offset + k, rest),
                                path,
                            ) implies (#[trigger] owner_at(parents.push(nodes[k]), nodes[k], rest))
                            is None by {
                            if k < front.len() {
                                assert(front[k] == nodes[k]);
                            } else {
                                assert(path_through(offset + k, rest).drop_first() =~= rest);
                                assert(walk_before(rest, inner));
                            }
                        }
                    },
                    None => {
                        assert forall|k: int, rest: Seq<int>|
                            0 <= k < nodes.len() && valid_path(nodes[k], rest) implies (
                        #[trigger] owner_at(parents.push(nodes[k]), nodes[k], rest)) is None by {
                            if k < front.len() {
                                assert(front[k] == nodes[k]);
                            }
                        }
                    },
                }
            },
        }
    }
}

/// The search returns what the first node of a depth-first walk to name a
/// workspace names, and nothing where no node of the subtree names one. The
/// walk takes a node before its children and the ordinary children before
/// the floating ones.
pub proof fn lemma_focus_search_by_path(parents: Seq<Node>, root: Node)
    ensures
        names_first(parents, root, first_namer(parents, root), focus_search(parents, root)),
    decreases root,
{
    let tiled = root.nodes@;
    let floating = root.floating_nodes@;
    let split = tiled.len() as int;
    lemma_row_names_first(parents, tiled, 0);
    lemma_row_names_first(parents, floating, split);
    if focus_owner(parents, root) is None {
        assert forall|k: int| 0 <= k < tiled.len() implies root.children()[k] == tiled[k] by {}
        assert forall|k: int| split <= k < split + floating.len() implies root.children()[k]
            == floating[k - split] by {}
        match first_namer_all(parents, tiled, 0) {
            Some(path) => {
                assert forall|earlier: Seq<int>|
                    valid_path(root, earlier) && walk_before(earlier, path) implies (
                #[trigger] owner_at(parents, root, earlier)) is None by {
                    if earlier.len() > 0 {
                        let k = earlier[0];
                        let rest = earlier.drop_first();
                        assert(earlier =~= path_through(0 + k, rest));
                        if k < split {
                            assert(owner_at(parents.push(tiled[k]), tiled[k], rest) is None);
                        }
                    }
                }
            },
            None => {
                match first_namer_all(parents, floating, split) {
                    Some(path) => {
                        assert forall|earlier: Seq<int>|
                            valid_path(root, earlier) && walk_before(earlier, path) implies (
                        #[trigger] owner_at(parents, root, earlier)) is None by {
                            if earlier.len() > 0 {
                                let k = earlier[0];
                                let rest = earlier.drop_first();
                                if k < split {
                                    assert(owner_at(parents.push(tiled[k]), tiled[k], rest)
                                        is None);
                                } else {
                                    assert(earlier =~= path_through(split + (k - split), rest));
                                    assert(owner_at(
                                        parents.push(floating[k - split]),
                                        floating[k - split],
                                        rest,
                                    ) is None);
                                }
                            }
                        }
                    },
                    None => {
                        assert forall|any: Seq<int>| valid_path(root, any) implies (
                        #[trigger] owner_at(parents, root, any)) is None by {
                            if any.len() > 0 {
                                let k = any[0];
                                let rest = any.drop_first();
                                if k < split {
                                    assert(owner_at(parents.push(tiled[k]), tiled[k], rest)
                                        is None);
                                } else {
                                    assert(owner_at(
                                        parents.push(floating[k - split]),
                                        floating[k - split],
                                        rest,
                                    ) is None);
                                }
                            }
                        }
                    },
                }
            },
        }
    }
}

/// Where at most one node of the subtree names a workspace, the search
/// returns the workspace that this node names, and nothing where there is no
/// such node.
pub proof fn lemma_at_most_one_focus(parents: Seq<Node>, root: Node)
    requires
        forall|p: Seq<int>, q: Seq<int>|
            valid_path(root, p) && valid_path(root, q) && (#[trigger] owner_at(parents, root, p))
                is Some && (#[trigger] owner_at(parents, root, q)) is Some ==> p == q,
    ensures
        forall|p: Seq<int>|
            valid_path(root, p) && (#[trigger] owner_at(parents, root, p)) is Some
                ==> focus_search(parents, root) == owner_at(parents, root, p),
        (forall|p: Seq<int>|
            valid_path(root, p) ==> (#[trigger] owner_at(parents, root, p)) is None)
            ==> focus_search(parents, root) is None,
{
    lemma_focus_search_by_path(parents, root);
}

/// A node names a workspace only if it has the focus.
pub proof fn lemma_owner_is_focused(parents: Seq<Node>, root: Node, path: Seq<int>)
    requires
        owner_at(parents, root, path) is Some,
    ensures
        node_at(root, path).focused,
    decreases path.len(),
{
    if path.len() > 0 {
        let child = root.children()[path[0]];
        lemma_owner_is_focused(parents.push(child), child, path.drop_first());
    }
}

/// In a tree without a focused node the search finds nothing.
pub proof fn lemma_unfocused_tree(parents: Seq<Node>, root: Node)
    requires
        forall|path: Seq<int>| valid_path(root, path) ==> !(#[trigger] node_at(root, path)).focused,
    ensures
        focus_search(parents, root) is None,
{
    lemma_focus_search_by_path(parents, root);
    match first_namer(parents, root) {
        Some(path) => {
            lemma_owner_is_focused(parents, root, path);
        },
        None => {},
    }
}

/// The path to the workspace that the search finds in the subtree under
/// `node`. The node stands at `here`, and `nearest` is the path to the
/// nearest workspace on the stack above it, if the stack holds one.
pub open spec fn focus_path_from(nearest: Option<Seq<int>>, here: Seq<int>, node: Node) -> Option<
    Seq<int>,
>
    decreases node,
{
    if node.focused && node.node_type == NodeType::Workspace {
        Some(here)
    } else if node.focused && node.is_container() && nearest is Some {
        nearest
    } else {
        match focus_path_row(nearest, here, node.nodes@, 0) {
            Some(path) => Some(path),
            None => focus_path_row(nearest, here, node.floating_nodes@, node.nodes@.len() as int),
        }
    }
}

/// The same for a row of children of the node at `here`, where the first
/// child of the row stands at `offset` among the children of that node.
pub open spec fn focus_path_row(
    nearest: Option<Seq<int>>,
    here: Seq<int>,
    nodes: Seq<Node>,
    offset: int,
) -> Option<Seq<int>>
    decreases nodes,
{
    if nodes.len() == 0 {
        None
    } else {
        match focus_path_row(nearest, here, nodes.drop_last(), offset) {
            Some(path) => Some(path),
            None => {
                let child = nodes.last();
                let at = here.push(offset + nodes.len() - 1);
                focus_path_from(
                    if child.node_type == NodeType::Workspace {
                        Some(at)
                    } else {
                        nearest
                    },
                    at,
                    child,
                )
            },
        }
    }
}

/// The path from the root of a snapshot to the workspace that holds the
/// focus.
pub open spec fn focus_path(root: Node) -> Option<Seq<int>> {
    focus_path_from(None, Seq::empty(), root)
}

/// Whether `found` is the workspace that stands at `path` below `root`, or
/// nothing where there is no path.
pub open spec fn found_at(root: Node, path: Option<Seq<int>>, found: Option<Node>) -> bool {
    match path {
        Some(path) => {
            &&& valid_path(root, path)
            &&& node_at(root, path).node_type == NodeType::Workspace
            &&& found == Some(node_at(root, path))
        },
        None => found is None,
    }
}

/// Whether `nearest` is the path to the nearest workspace on the stack.
spec fn stack_matches(root: Node, parents: Seq<Node>, nearest: Option<Seq<int>>) -> bool {
    found_at(root, nearest, nearest_workspace(parents))
}

/// The search below the node at `here` finds the workspace at the path that
/// `focus_path_from` gives.
proof fn lemma_focus_path_from(
    root: Node,
    parents: Seq<Node>,
    nearest: Option<Seq<int>>,
    here: Seq<int>,
    node: Node,
)
    requires
        valid_path(root, here),
        node == node_at(root, here),
        stack_matches(root, parents, nearest),
    ensures
        found_at(root, focus_path_from(nearest, here, node), focus_search(parents, node)),
    decreases node,
{
    let split = node.nodes@.len() as int;
    assert forall|k: int| 0 <= k < node.nodes@.len() implies node.nodes@[k]
        == node.children()[0 + k] by {}
    assert forall|k: int| 0 <= k < node.floating_nodes@.len() implies node.floating_nodes@[k]
        == node.children()[split + k] by {}
    lemma_focus_path_row(root, parents, nearest, here, node, node.nodes@, 0);
    lemma_focus_path_row(root, parents, nearest, here, node, node.floating_nodes@, split);
}

/// The same for a row of children of the node at `here`.
proof fn lemma_focus_path_row(
    root: Node,
    parents: Seq<Node>,
    nearest: Option<Seq<int>>,
    here: Seq<int>,
    node: Node,
    nodes: Seq<Node>,
    offset: int,
)
    requires
        valid_path(root, here),
        node == node_at(root, here),
        stack_matches(root, parents, nearest),
        0 <= offset,
        offset + nodes.len() <= node.children().len(),
        forall|k: int| 0 <= k < nodes.len() ==> nodes[k] == node.children()[offset + k],
    ensures
        found_at(
            root,
            focus_path_row(nearest, here, nodes, offset),
            focus_search_all(parents, nodes),
        ),
    decreases nodes,
{
    if nodes.len() > 0 {
        let front = nodes.drop_last();
        let child = nodes.last();
        let position = offset + nodes.len() - 1;
        let at = here.push(position);
        assert forall|k: int| 0 <= k < front.len() implies front[k] == node.children()[offset
            + k] by {
            assert(front[k] == nodes[k]);
        }
        lemma_focus_path_row(root, parents, nearest, here, node, front, offset);
        if focus_path_row(nearest, here, front, offset) is None {
            assert(child == node.children()[position]);
            lemma_node_at_push(root, here, position);
            let above = parents.push(child);
            let inner = if child.node_type == NodeType::Workspace {
                Some(at)
            } else {
                nearest
            };
            assert(above.drop_last() =~= parents);
            assert(stack_matches(root, above, inner));
            lemma_focus_path_from(root, above, inner, at, child);
        }
    }
}

/// The search finds the workspace that stands at `focus_path`, and nothing
/// where there is no such path.
pub proof fn lemma_focus_path(root: Node)
    ensures
        found_at(root, focus_path(root), focus_search(Seq::empty(), root)),
{
    lemma_focus_path_from(root, Seq::empty(), None, Seq::empty(), root);
}

/// The path to the focused workspace depends on the frame of the tree alone:
/// on its shape, the kinds of its nodes and their focus.
pub proof fn lemma_focus_path_of_frame(
    nearest: Option<Seq<int>>,
    here: Seq<int>,
    a: Node,
    b: Node,
)
    requires
        same_frame(a, b),
    ensures
        focus_path_from(nearest, here, a) == focus_path_from(nearest, here, b),
    decreases a,
{
    lemma_focus_path_row_of_frame(nearest, here, a.nodes@, b.nodes@, 0);
    lemma_focus_path_row_of_frame(
        nearest,
        here,
        a.floating_nodes@,
        b.floating_nodes@,
        a.nodes@.len() as int,
    );
}

/// The same for two rows of children with the same frames.
proof fn lemma_focus_path_row_of_frame(
    nearest: Option<Seq<int>>,
    here: Seq<int>,
    xs: Seq<Node>,
    ys: Seq<Node>,
    offset: int,
)
    requires
        xs.len() == ys.len(),
        forall|k: int| 0 <= k < xs.len() ==> same_frame(xs[k], ys[k]),
    ensures
        focus_path_row(nearest, here, xs, offset) == focus_path_row(nearest, here, ys, offset),
    decreases xs,
{
    if xs.len() > 0 {
        assert forall|k: int| 0 <= k < xs.drop_last().len() implies same_frame(
            xs.drop_last()[k],
            ys.drop_last()[k],
        ) by {
            assert(same_frame(xs[k], ys[k]));
        }
        lemma_focus_path_row_of_frame(nearest, here, xs.drop_last(), ys.drop_last(), offset);
        assert(same_frame(xs[xs.len() - 1], ys[xs.len() - 1]));
        let at = here.push(offset + xs.len() - 1);
        let inner = if xs.last().node_type == NodeType::Workspace {
            Some(at)
        } else {
            nearest
        };
        lemma_focus_path_of_frame(inner, at, xs.last(), ys.last());
    }
}

} // verus!
