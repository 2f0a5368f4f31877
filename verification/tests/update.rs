use std::cell::RefCell;
use workstyle::error::UpdateError;
use workstyle::tree::{Node, NodeType};
use workstyle::update::{
    plan_rename, resolve_icons, update_workspace, update_workspace_name, Rename,
};

fn node(
    id: i64,
    node_type: NodeType,
    name: Option<&str>,
    nodes: Vec<Node>,
    floating: Vec<Node>,
) -> Node {
    Node {
        id,
        name: name.map(|s| s.to_string()),
        node_type,
        focused: false,
        num: None,
        app_id: None,
        class: None,
        nodes,
        floating_nodes: floating,
    }
}

fn window(id: i64, name: &str) -> Node {
    node(id, NodeType::Con, Some(name), vec![], vec![])
}

fn workspace(num: i32, label: &str, focused: bool, nodes: Vec<Node>, floating: Vec<Node>) -> Node {
    let mut w = node(100 + num as i64, NodeType::Workspace, Some(label), nodes, floating);
    w.num = Some(num);
    w.focused = focused;
    w
}

fn screen(workspaces: Vec<Node>) -> Node {
    node(
        1,
        NodeType::Root,
        Some("root"),
        vec![node(2, NodeType::Output, Some("eDP-1"), workspaces, vec![])],
        vec![],
    )
}

fn icon_for(window: &Node) -> String {
    match window.name.as_deref() {
        Some("Firefox") => "🦊".to_string(),
        Some("Terminal") => ">_".to_string(),
        Some("Editor") => "E".to_string(),
        _ => String::new(),
    }
}

fn strings(items: &[&str]) -> Vec<String> {
    items.iter().map(|s| s.to_string()).collect()
}

fn rename(from: &str, to: &str) -> Rename {
    Rename { from: from.to_string(), to: to.to_string() }
}

#[test]
fn a_workspace_with_a_new_window_is_renamed() {
    let tree = screen(vec![workspace(1, "1", true, vec![window(11, "Firefox")], vec![])]);
    assert_eq!(update_workspace(&tree, &icon_for), Ok(Some(rename("1", "1: 🦊 "))));
}

#[test]
fn an_empty_workspace_with_its_number_as_name_is_kept() {
    let tree = screen(vec![workspace(2, "2", true, vec![], vec![])]);
    assert_eq!(update_workspace(&tree, &icon_for), Ok(None));
}

#[test]
fn a_workspace_that_lost_its_windows_gets_its_number_back() {
    let tree = screen(vec![workspace(2, "2: E ", true, vec![], vec![])]);
    assert_eq!(update_workspace(&tree, &icon_for), Ok(Some(rename("2: E ", "2"))));
}

#[test]
fn a_focused_window_below_a_floating_container_updates_its_workspace() {
    let mut focused = window(33, "Terminal");
    focused.focused = true;
    let tree = screen(vec![
        workspace(1, "1", false, vec![window(11, "Firefox")], vec![]),
        workspace(
            3,
            "3",
            false,
            vec![window(31, "Editor")],
            vec![node(32, NodeType::FloatingCon, None, vec![focused], vec![])],
        ),
    ]);
    assert_eq!(update_workspace(&tree, &icon_for), Ok(Some(rename("3", "3: E >_ "))));
}

#[test]
fn a_tree_without_focus_is_left_alone() {
    let tree = screen(vec![workspace(1, "1", false, vec![window(11, "Firefox")], vec![])]);
    assert_eq!(update_workspace(&tree, &icon_for), Err(UpdateError::NoFocusedWorkspace));
}

#[test]
fn a_second_update_after_the_rename_asks_for_nothing() {
    let mut tree = screen(vec![workspace(
        1,
        "1",
        true,
        vec![window(11, "Firefox"), window(12, "Terminal")],
        vec![window(13, "Editor")],
    )]);
    let first = update_workspace(&tree, &icon_for).unwrap().unwrap();
    assert_eq!(first, rename("1", "1: 🦊 >_ E "));
    tree.nodes[0].nodes[0].name = Some(first.to.clone());
    assert_eq!(update_workspace(&tree, &icon_for), Ok(None));
    assert_eq!(update_workspace(&tree, &icon_for), Ok(None));
}

#[test]
fn a_labelled_workspace_is_kept() {
    let tree = screen(vec![workspace(4, "4: 🦊 ", true, vec![window(41, "Firefox")], vec![])]);
    assert_eq!(update_workspace(&tree, &icon_for), Ok(None));
}

#[test]
fn the_comparison_is_exact() {
    let tree = screen(vec![workspace(4, "4: 🦊", true, vec![window(41, "Firefox")], vec![])]);
    assert_eq!(update_workspace(&tree, &icon_for), Ok(Some(rename("4: 🦊", "4: 🦊 "))));
}

#[test]
fn a_window_without_icon_adds_nothing_to_the_label() {
    let tree = screen(vec![workspace(
        5,
        "5",
        true,
        vec![window(51, "Firefox"), window(52, "unknown"), window(53, "Editor")],
        vec![],
    )]);
    assert_eq!(update_workspace(&tree, &icon_for), Ok(Some(rename("5", "5: 🦊 E "))));
    let tree = screen(vec![workspace(5, "5", true, vec![window(52, "unknown")], vec![])]);
    assert_eq!(update_workspace(&tree, &icon_for), Ok(None));
}

#[test]
fn a_workspace_without_name_is_an_error() {
    let mut nameless = workspace(6, "6", true, vec![window(61, "Firefox")], vec![]);
    nameless.name = None;
    nameless.id = 77;
    let tree = screen(vec![nameless]);
    assert_eq!(update_workspace(&tree, &icon_for), Err(UpdateError::MissingName { id: 77 }));
}

#[test]
fn a_workspace_without_number_is_an_error() {
    let mut unnumbered = workspace(6, "mail", true, vec![window(61, "Firefox")], vec![]);
    unnumbered.num = None;
    let tree = screen(vec![unnumbered]);
    assert_eq!(
        update_workspace(&tree, &icon_for),
        Err(UpdateError::MissingIndex { name: "mail".to_string() })
    );
}

#[test]
fn a_missing_name_is_reported_before_a_missing_number() {
    let mut bare = workspace(6, "6", true, vec![], vec![]);
    bare.name = None;
    bare.num = None;
    bare.id = -8;
    assert_eq!(update_workspace_name(&bare, &icon_for), Err(UpdateError::MissingName { id: -8 }));
}

#[test]
fn the_errors_have_their_messages() {
    assert_eq!(
        UpdateError::NoFocusedWorkspace.message(),
        "Could not find a workspace with focus"
    );
    assert_eq!(
        UpdateError::MissingName { id: 42 }.message(),
        "Could not get name for workspace with id: 42"
    );
    assert_eq!(
        UpdateError::MissingName { id: -7 }.message(),
        "Could not get name for workspace with id: -7"
    );
    assert_eq!(
        UpdateError::MissingIndex { name: "mail".to_string() }.message(),
        "Could not fetch index for: mail"
    );
}

#[test]
fn the_command_names_the_workspace_by_its_old_name() {
    assert_eq!(
        rename("1", "1: 🦊 ").command(),
        "rename workspace \"1\" to \"1: 🦊 \""
    );
    assert_eq!(rename("", "").command(), "rename workspace \"\" to \"\"");
}

#[test]
fn the_resolver_is_asked_once_for_each_window_in_the_order_of_the_walk() {
    let asked: RefCell<Vec<i64>> = RefCell::new(Vec::new());
    let recording = |window: &Node| -> String {
        asked.borrow_mut().push(window.id);
        icon_for(window)
    };
    let tree = screen(vec![
        workspace(1, "1", false, vec![window(11, "Firefox")], vec![]),
        workspace(
            2,
            "2",
            true,
            vec![
                node(21, NodeType::Con, None, vec![window(22, "Editor"), window(23, "x")], vec![]),
                window(24, "Terminal"),
            ],
            vec![window(25, "Firefox")],
        ),
    ]);
    assert_eq!(update_workspace(&tree, &recording), Ok(Some(rename("2", "2: E >_ 🦊 "))));
    assert_eq!(*asked.borrow(), vec![22, 23, 24, 25]);
}

#[test]
fn the_resolver_is_not_asked_for_a_workspace_that_lacks_an_attribute() {
    let asked: RefCell<Vec<i64>> = RefCell::new(Vec::new());
    let recording = |window: &Node| -> String {
        asked.borrow_mut().push(window.id);
        icon_for(window)
    };
    let mut unnumbered = workspace(6, "mail", true, vec![window(61, "Firefox")], vec![]);
    unnumbered.num = None;
    assert!(update_workspace_name(&unnumbered, &recording).is_err());
    assert!(asked.borrow().is_empty());
}

#[test]
fn resolve_icons_keeps_the_icons_that_are_not_empty() {
    let a = window(1, "Firefox");
    let b = window(2, "nothing");
    let c = window(3, "Terminal");
    let d = window(4, "Firefox");
    let windows = vec![&a, &b, &c, &d];
    assert_eq!(resolve_icons(&windows, &icon_for), strings(&["🦊", ">_", "🦊"]));
    let none: Vec<&Node> = Vec::new();
    assert!(resolve_icons(&none, &icon_for).is_empty());
}

#[test]
fn plan_rename_holds_the_label_against_the_name() {
    let w = workspace(1, "1", false, vec![], vec![]);
    assert_eq!(plan_rename(&w, &strings(&[])), Ok(None));
    assert_eq!(plan_rename(&w, &strings(&["a"])), Ok(Some(rename("1", "1: a "))));
    let w = workspace(1, "1: a ", false, vec![], vec![]);
    assert_eq!(plan_rename(&w, &strings(&["a"])), Ok(None));
    assert_eq!(plan_rename(&w, &strings(&["a", "b"])), Ok(Some(rename("1: a ", "1: a b "))));
    let w = workspace(-1, "mail", false, vec![], vec![]);
    assert_eq!(plan_rename(&w, &strings(&[])), Ok(Some(rename("mail", "-1"))));
}

#[test]
fn plan_rename_reports_the_missing_attribute() {
    let mut w = workspace(1, "1", false, vec![], vec![]);
    w.num = None;
    assert_eq!(
        plan_rename(&w, &strings(&["a"])),
        Err(UpdateError::MissingIndex { name: "1".to_string() })
    );
    w.name = None;
    assert_eq!(plan_rename(&w, &strings(&["a"])), Err(UpdateError::MissingName { id: 101 }));
}

#[test]
fn update_workspace_name_works_on_the_workspace_it_is_given() {
    let w = workspace(
        9,
        "9",
        false,
        vec![window(91, "Editor")],
        vec![node(92, NodeType::FloatingCon, Some("Terminal"), vec![window(93, "Firefox")], vec![])],
    );
    assert_eq!(update_workspace_name(&w, &icon_for), Ok(Some(rename("9", "9: E >_ 🦊 "))));
}
