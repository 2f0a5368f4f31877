use workstyle::tree::{Node, NodeType};
use workstyle::windows::{collect_windows, get_windows};

fn node(
    id: i64,
    node_type: NodeType,
    name: Option<&str>,
    nodes: Vec<Node>,
    floating: Vec<Node>,
) -> Node {
    Node {
        id,
        name: name.map(|s| s.to_string()),
        node_type,
        focused: false,
        num: None,
        app_id: None,
        class: None,
        nodes,
        floating_nodes: floating,
    }
}

fn window(id: i64, name: &str) -> Node {
    node(id, NodeType::Con, Some(name), vec![], vec![])
}

fn ids(windows: &Vec<&Node>) -> Vec<i64> {
    windows.iter().map(|w| w.id).collect()
}

#[test]
fn a_tree_without_windows_gives_none() {
    let tree = node(1, NodeType::Workspace, Some("1"), vec![], vec![]);
    assert!(collect_windows(&tree).is_empty());
}

#[test]
fn a_named_container_is_a_window() {
    let tree = window(1, "Firefox");
    assert_eq!(ids(&collect_windows(&tree)), vec![1]);
}

#[test]
fn a_named_floating_container_is_a_window() {
    let tree = node(1, NodeType::FloatingCon, Some("dialog"), vec![], vec![]);
    assert_eq!(ids(&collect_windows(&tree)), vec![1]);
}

#[test]
fn a_container_without_a_name_is_no_window() {
    let tree = node(1, NodeType::Con, None, vec![window(2, "a")], vec![]);
    assert_eq!(ids(&collect_windows(&tree)), vec![2]);
}

#[test]
fn named_nodes_of_other_kinds_are_no_windows() {
    let tree = node(
        1,
        NodeType::Root,
        Some("root"),
        vec![node(
            2,
            NodeType::Output,
            Some("eDP-1"),
            vec![node(3, NodeType::Workspace, Some("1"), vec![window(4, "a")], vec![])],
            vec![],
        )],
        vec![node(5, NodeType::Other, Some("dock"), vec![], vec![])],
    );
    assert_eq!(ids(&collect_windows(&tree)), vec![4]);
}

#[test]
fn a_named_container_counts_before_its_children() {
    let tree = node(
        1,
        NodeType::Con,
        Some("tabs"),
        vec![window(2, "a"), window(3, "b")],
        vec![window(4, "c")],
    );
    assert_eq!(ids(&collect_windows(&tree)), vec![1, 2, 3, 4]);
}

#[test]
fn ordinary_children_come_before_floating_ones() {
    let tree = node(
        1,
        NodeType::Workspace,
        Some("1"),
        vec![
            node(2, NodeType::Con, None, vec![window(3, "a"), window(4, "b")], vec![window(5, "c")]),
            window(6, "d"),
        ],
        vec![
            node(7, NodeType::FloatingCon, Some("e"), vec![window(8, "f")], vec![]),
            node(9, NodeType::FloatingCon, None, vec![], vec![window(10, "g")]),
        ],
    );
    assert_eq!(ids(&collect_windows(&tree)), vec![3, 4, 5, 6, 7, 8, 10]);
}

#[test]
fn the_windows_are_the_nodes_of_the_tree_themselves() {
    let tree = node(1, NodeType::Workspace, Some("1"), vec![window(2, "a")], vec![window(3, "b")]);
    let windows = collect_windows(&tree);
    assert_eq!(windows.len(), 2);
    assert!(std::ptr::eq(windows[0], &tree.nodes[0]));
    assert!(std::ptr::eq(windows[1], &tree.floating_nodes[0]));
}

#[test]
fn get_windows_appends_to_what_is_there() {
    let first = node(1, NodeType::Workspace, Some("1"), vec![window(2, "a")], vec![]);
    let second = node(3, NodeType::Workspace, Some("2"), vec![window(4, "b")], vec![window(5, "c")]);
    let mut windows = Vec::new();
    get_windows(&first, &mut windows);
    get_windows(&second, &mut windows);
    assert_eq!(ids(&windows), vec![2, 4, 5]);
}

#[test]
fn the_node_kinds_are_told_apart() {
    let con = window(1, "a");
    assert!(con.is_container_node());
    assert!(con.is_window_node());
    assert!(!con.is_workspace_node());
    let bare = node(2, NodeType::FloatingCon, None, vec![], vec![]);
    assert!(bare.is_container_node());
    assert!(!bare.is_window_node());
    let workspace = node(3, NodeType::Workspace, Some("1"), vec![], vec![]);
    assert!(workspace.is_workspace_node());
    assert!(!workspace.is_container_node());
    assert!(!workspace.is_window_node());
}
