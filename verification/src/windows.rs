//! The windows of a subtree.

use crate::tree::{node_at, nodes_of, path_through, valid_path, walk_before, Node};
use vstd::prelude::*;

verus! {

/// The windows of a subtree in the order of a depth-first walk: the node
/// itself if it is a window, then what its ordinary children hold, then what
/// its floating children hold.
pub open spec fn windows_of(node: Node) -> Seq<Node>
    decreases node,
{
    (if node.is_window() {
        seq![node]
    } else {
        Seq::empty()
    }) + windows_of_all(node.nodes@) + windows_of_all(node.floating_nodes@)
}

/// The windows of a row of subtrees, one subtree after the other.
pub open spec fn windows_of_all(nodes: Seq<Node>) -> Seq<Node>
    decreases nodes,
{
    if nodes.len() == 0 {
        Seq::empty()
    } else {
        windows_of_all(nodes.drop_last()) + windows_of(nodes.last())
    }
}

/// One more reference adds the node that it points to.
proof fn lemma_nodes_of_push(refs: Seq<&Node>, node: &Node)
    ensures
        nodes_of(refs.push(node)) == nodes_of(refs).push(*node),
{
    assert(nodes_of(refs.push(node)) =~= nodes_of(refs).push(*node));
}

/// Appends the windows of the subtree under `node` to `windows`, in the order
/// of `windows_of`.
pub fn get_windows<'a>(node: &'a Node, windows: &mut Vec<&'a Node>)
    ensures
        nodes_of(final(windows)@) == nodes_of(old(windows)@) + windows_of(*node),
    decreases node, 1nat,
{
    if node.is_window_node() {
        proof {
            lemma_nodes_of_push(windows@, node);
        }
        windows.push(node);
    }
    get_windows_of_all(node, &node.nodes, windows);
    get_windows_of_all(node, &node.floating_nodes, windows);
    assert(nodes_of(windows@) =~= nodes_of(old(windows)@) + windows_of(*node));
}

/// Appends the windows below a row of children of `node`, one child after
/// the other.
fn get_windows_of_all<'a>(node: &'a Node, children: &'a Vec<Node>, windows: &mut Vec<&'a Node>)
    requires
        children == node.nodes || children == node.floating_nodes,
    ensures
        nodes_of(final(windows)@) == nodes_of(old(windows)@) + windows_of_all(children@),
    decreases node, 0nat,
{
    let ghost before = nodes_of(windows@);
    let mut i: usize = 0;
    assert(nodes_of(windows@) =~= before + windows_of_all(children@.take(0)));
    while i < children.len()
        invariant
            i <= children.len(),
            children == node.nodes || children == node.floating_nodes,
            nodes_of(windows@) == before + windows_of_all(children@.take(i as int)),
        decreases children.len() - i,
    {
        get_windows(&children[i], windows);
        proof {
            let upto = children@.take(i + 1);
            assert(upto.drop_last() =~= children@.take(i as int));
            assert(upto.last() == children@[i as int]);
            assert(nodes_of(windows@) =~= before + windows_of_all(upto));
        }
        i += 1;
    }
    assert(children@.take(i as int) =~= children@);
}

/// The windows of the subtree under `subtree`, as references into it, in the
/// order of a depth-first walk.
pub fn collect_windows(subtree: &Node) -> (windows: Vec<&Node>)
    ensures
        nodes_of(windows@) == windows_of(*subtree),
{
    let mut windows: Vec<&Node> = Vec::new();
    assert(nodes_of(windows@) =~= Seq::<Node>::empty());
    get_windows(subtree, &mut windows);
    assert(nodes_of(windows@) =~= windows_of(*subtree));
    windows
}

/// Every node that `windows_of` lists is a window.
pub proof fn lemma_windows_are_windows(node: Node)
    ensures
        forall|i: int|
            0 <= i < windows_of(node).len() ==> (#[trigger] windows_of(node)[i]).is_window(),
    decreases node,
{
    lemma_all_windows_are_windows(node.nodes@);
    lemma_all_windows_are_windows(node.floating_nodes@);
    let own = if node.is_window() {
        seq![node]
    } else {
        Seq::empty()
    };
    let tiled = windows_of_all(node.nodes@);
    let floating = windows_of_all(node.floating_nodes@);
    assert forall|i: int| 0 <= i < windows_of(node).len() implies (#[trigger] windows_of(
        node,
    )[i]).is_window() by {
        if i < own.len() {
            assert(windows_of(node)[i] == own[i]);
        } else if i < own.len() + tiled.len() {
            assert(windows_of(node)[i] == tiled[i - own.len()]);
        } else {
            assert(windows_of(node)[i] == floating[i - own.len() - tiled.len()]);
        }
    }
}

/// The same for a row of subtrees.
proof fn lemma_all_windows_are_windows(nodes: Seq<Node>)
    ensures
        forall|i: int|
            0 <= i < windows_of_all(nodes).len() ==> (#[trigger] windows_of_all(
                nodes,
            )[i]).is_window(),
    decreases nodes,
{
    if nodes.len() > 0 {
        lemma_all_windows_are_windows(nodes.drop_last());
        lemma_windows_are_windows(nodes.last());
        let before = windows_of_all(nodes.drop_last());
        let last = windows_of(nodes.last());
        assert forall|i: int| 0 <= i < windows_of_all(nodes).len() implies (
        #[trigger] windows_of_all(nodes)[i]).is_window() by {
            if i < before.len() {
                assert(windows_of_all(nodes)[i] == before[i]);
            } else {
                assert(windows_of_all(nodes)[i] == last[i - before.len()]);
            }
        }
    }
}

/// The paths from `node` to the windows of its subtree, in the order in
/// which `windows_of` lists the windows.
pub open spec fn window_paths(node: Node) -> Seq<Seq<int>>
    decreases node,
{
    (if node.is_window() {
        seq![Seq::<int>::empty()]
    } else {
        Seq::empty()
    }) + window_paths_all(node.nodes@, 0) + window_paths_all(
        node.floating_nodes@,
        node.nodes@.len() as int,
    )
}

/// The paths to the windows below a row of children, where the first child
/// of the row stands at `offset` among the children of its parent.
pub open spec fn window_paths_all(nodes: Seq<Node>, offset: int) -> Seq<Seq<int>>
    decreases nodes,
{
    if nodes.len() == 0 {
        Seq::empty()
    } else {
        window_paths_all(nodes.drop_last(), offset) + window_paths(nodes.last()).map_values(
            |rest: Seq<int>| path_through(offset + nodes.len() - 1, rest),
        )
    }
}

/// Whether `paths` and `found` list, place by place, the same nodes of the
/// subtree under `root`, and do so for its windows, all of them, each once
/// and in the order of a depth-first walk.
pub open spec fn lists_windows(root: Node, paths: Seq<Seq<int>>, found: Seq<Node>) -> bool {
    &&& paths.len() == found.len()
    &&& forall|i: int|
        0 <= i < paths.len() ==> valid_path(root, #[trigger] paths[i]) && node_at(root, paths[i])
            == found[i] && found[i].is_window()
    &&& forall|i: int, j: int|
        0 <= i < j < paths.len() ==> walk_before(#[trigger] paths[i], #[trigger] paths[j])
    &&& forall|path: Seq<int>|
        valid_path(root, path) && (#[trigger] node_at(root, path)).is_window() ==> paths.contains(
            path,
        )
}

/// What `lists_windows` says, for a row of children: each path starts at a
/// child of the row and goes on, below that child, to the window listed.
spec fn lists_row(nodes: Seq<Node>, offset: int) -> bool {
    let paths = window_paths_all(nodes, offset);
    let found = windows_of_all(nodes);
    &&& paths.len() == found.len()
    &&& forall|i: int|
        0 <= i < paths.len() ==> {
            let path = #[trigger] paths[i];
            &&& path.len() > 0
            &&& offset <= path[0] < offset + nodes.len()
            &&& valid_path(nodes[path[0] - offset], path.drop_first())
            &&& node_at(nodes[path[0] - offset], path.drop_first()) == found[i]
            &&& found[i].is_window()
        }
    &&& forall|i: int, j: int|
        0 <= i < j < paths.len() ==> walk_before(#[trigger] paths[i], #[trigger] paths[j])
    &&& forall|k: int, rest: Seq<int>|
        0 <= k < nodes.len() && valid_path(nodes[k], rest) && node_at(nodes[k], rest).is_window()
            ==> paths.contains(#[trigger] path_through(offset + k, rest))
}

/// The paths and the windows of a row of children list the same nodes.
proof fn lemma_lists_row(nodes: Seq<Node>, offset: int)
    ensures
        lists_row(nodes, offset),
    decreases nodes,
{
    if nodes.len() > 0 {
        let front = nodes.drop_last();
        let last = nodes.last();
        let position = offset + nodes.len() - 1;
        lemma_lists_row(front, offset);
        lemma_windows_by_path(last);
        let before = window_paths_all(front, offset);
        let inner = window_paths(last);
        let below = inner.map_values(|rest: Seq<int>| path_through(position, rest));
        let paths = window_paths_all(nodes, offset);
        let found = windows_of_all(nodes);
        assert(paths == before + below);
        assert forall|i: int| 0 <= i < paths.len() implies {
            let path = #[trigger] paths[i];
            &&& path.len() > 0
            &&& offset <= path[0] < offset + nodes.len()
            &&& valid_path(nodes[path[0] - offset], path.drop_first())
            &&& node_at(nodes[path[0] - offset], path.drop_first()) == found[i]
            &&& found[i].is_window()
        } by {
            if i < before.len() {
                let path = before[i];
                assert(paths[i] == path);
                assert(front[path[0] - offset] == nodes[path[0] - offset]);
                assert(found[i] == windows_of_all(front)[i]);
            } else {
                let rest = inner[i - before.len()];
                assert(paths[i] == path_through(position, rest));
                assert(path_through(position, rest).drop_first() =~= rest);
                assert(found[i] == windows_of(last)[i - before.len()]);
            }
        }
        assert forall|i: int, j: int| 0 <= i < j < paths.len() implies walk_before(
            #[trigger] paths[i],
            #[trigger] paths[j],
        ) by {
            if j < before.len() {
                assert(paths[i] == before[i] && paths[j] == before[j]);
            } else if i < before.len() {
                assert(paths[i] == before[i]);
                assert(paths[j] == path_through(position, inner[j - before.len()]));
            } else {
                let first = inner[i - before.len()];
                let second = inner[j - before.len()];
                assert(paths[i] == path_through(position, first));
                assert(paths[j] == path_through(position, second));
                assert(path_through(position, first).drop_first() =~= first);
                assert(path_through(position, second).drop_first() =~= second);
                assert(walk_before(first, second));
            }
        }
        assert forall|k: int, rest: Seq<int>|
            0 <= k < nodes.len() && valid_path(nodes[k], rest) && node_at(
                nodes[k],
                rest,
            ).is_window() implies paths.contains(#[trigger] path_through(offset + k, rest)) by {
            if k < front.len() {
                assert(front[k] == nodes[k]);
                assert(before.contains(path_through(offset + k, rest)));
                let i = choose|i: int|
                    0 <= i < before.len() && before[i] == path_through(offset + k, rest);
                assert(paths[i] == path_through(offset + k, rest));
            } else {
                assert(inner.contains(rest));
                let i = choose|i: int| 0 <= i < inner.len() && inner[i] == rest;
                assert(paths[before.len() + i] == path_through(position, rest));
            }
        }
    }
}

/// `windows_of` lists exactly the windows of a subtree, each once, in the
/// order of a depth-first walk that takes a node before its children and the
/// ordinary children before the floating ones: `window_paths` names, place by
/// place, where each listed window stands.
pub proof fn lemma_windows_by_path(root: Node)
    ensures
        lists_windows(root, window_paths(root), windows_of(root)),
    decreases root,
{
    let tiled = root.nodes@;
    let floating = root.floating_nodes@;
    let split = tiled.len() as int;
    lemma_lists_row(tiled, 0);
    lemma_lists_row(floating, split);
    let own = if root.is_window() {
        seq![Seq::<int>::empty()]
    } else {
        Seq::empty()
    };
    let own_found = if root.is_window() {
        seq![root]
    } else {
        Seq::empty()
    };
    let left = window_paths_all(tiled, 0);
    let right = window_paths_all(floating, split);
    let paths = window_paths(root);
    let found = windows_of(root);
    assert(paths == own + left + right);
    assert(found == own_found + windows_of_all(tiled) + windows_of_all(floating));
    assert forall|i: int| 0 <= i < paths.len() implies valid_path(root, #[trigger] paths[i])
        && node_at(root, paths[i]) == found[i] && found[i].is_window() by {
        if i < own.len() {
            assert(paths[i] == own[i]);
            assert(found[i] == own_found[i]);
        } else if i < own.len() + left.len() {
            let path = left[i - own.len()];
            assert(paths[i] == path);
            assert(found[i] == windows_of_all(tiled)[i - own.len()]);
            assert(root.children()[path[0]] == tiled[path[0]]);
        } else {
            let path = right[i - own.len() - left.len()];
            assert(paths[i] == path);
            assert(found[i] == windows_of_all(floating)[i - own.len() - left.len()]);
            assert(root.children()[path[0]] == floating[path[0] - split]);
        }
    }
    assert forall|i: int, j: int| 0 <= i < j < paths.len() implies walk_before(
        #[trigger] paths[i],
        #[trigger] paths[j],
    ) by {
        if i < own.len() {
            assert(paths[i] == own[i]);
            if j < own.len() + left.len() {
                assert(paths[j] == left[j - own.len()]);
            } else {
                assert(paths[j] == right[j - own.len() - left.len()]);
            }
        } else if j < own.len() + left.len() {
            assert(paths[i] == left[i - own.len()]);
            assert(paths[j] == left[j - own.len()]);
        } else if i < own.len() + left.len() {
            assert(paths[i] == left[i - own.len()]);
            assert(paths[j] == right[j - own.len() - left.len()]);
        } else {
            assert(paths[i] == right[i - own.len() - left.len()]);
            assert(paths[j] == right[j - own.len() - left.len()]);
        }
    }
    assert forall|path: Seq<int>|
        valid_path(root, path) && (#[trigger] node_at(root, path)).is_window() implies
        paths.contains(path) by {
        if path.len() == 0 {
            assert(paths[0] =~= path);
        } else {
            let position = path[0];
            let rest = path.drop_first();
            assert(path =~= path_through(position, rest));
            if position < split {
                assert(root.children()[position] == tiled[position]);
                assert(left.contains(path_through(0 + position, rest)));
                let i = choose|i: int| 0 <= i < left.len() && left[i] == path;
                assert(paths[own.len() + i] == path);
            } else {
                assert(root.children()[position] == floating[position - split]);
                assert(right.contains(path_through(split + (position - split), rest)));
                let i = choose|i: int| 0 <= i < right.len() && right[i] == path;
                assert(paths[own.len() + left.len() + i] == path);
            }
        }
    }
}

} // verus!
