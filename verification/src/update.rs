//! One update of the focused workspace's label.

use crate::error::UpdateError;
use crate::focus::{
    find_focused_workspace, focus_path, focus_search, lemma_focus_path, lemma_focus_path_of_frame,
};
use crate::label::{label_text, synthesize_label, texts};
use crate::tree::{lemma_same_frame_reflexive, node_at, nodes_of, same_frame, valid_path, Node};
use crate::windows::{collect_windows, lemma_windows_are_windows, windows_of};
use vstd::prelude::*;
use vstd::string::*;

verus! {

/// The order to give a workspace another name.
#[derive(Debug, PartialEq, Eq)]
pub struct Rename {
    /// The name that the workspace has now, by which the command finds it.
    pub from: String,
    /// The name that it is to get.
    pub to: String,
}

impl Rename {
    /// The text of the command that carries out the rename.
    pub open spec fn command_text(&self) -> Seq<char> {
        "rename workspace \""@ + self.from@ + "\" to \""@ + self.to@ + "\""@
    }

    /// The command that carries out the rename.
    pub fn command(&self) -> (text: String)
        ensures
            text@ == self.command_text(),
    {
        let mut text = "rename workspace \"".to_owned();
        text.append(self.from.as_str());
        text.append("\" to \"");
        text.append(self.to.as_str());
        text.append("\"");
        text
    }
}

/// The icons that a label shows: those that are not empty, in their order.
pub open spec fn shown_icons(icons: Seq<Seq<char>>) -> Seq<Seq<char>>
    decreases icons.len(),
{
    if icons.len() == 0 {
        Seq::empty()
    } else if icons.last().len() > 0 {
        shown_icons(icons.drop_last()).push(icons.last())
    } else {
        shown_icons(icons.drop_last())
    }
}

/// Whether `raw` holds, window by window, an icon that the resolver may give
/// for that window.
pub open spec fn resolved_by<F: Fn(&Node) -> String>(
    icon_for: &F,
    windows: Seq<Node>,
    raw: Seq<String>,
) -> bool {
    &&& raw.len() == windows.len()
    &&& forall|i: int|
        0 <= i < raw.len() ==> call_ensures(*icon_for, (&windows[i],), #[trigger] raw[i])
}

/// Asks the resolver for the icon of each window, in the order of the
/// windows, and keeps the icons that are not empty.
pub fn resolve_icons<F: Fn(&Node) -> String>(windows: &Vec<&Node>, icon_for: &F) -> (icons: Vec<
    String,
>)
    requires
        forall|i: int|
            0 <= i < windows@.len() ==> call_requires(*icon_for, (#[trigger] windows@[i],)),
    ensures
        exists|raw: Seq<String>| #[trigger]
            resolved_by(icon_for, nodes_of(windows@), raw) && texts(icons@) == shown_icons(
                texts(raw),
            ),
{
    let mut icons: Vec<String> = Vec::new();
    let ghost mut raw: Seq<String> = Seq::empty();
    let mut i: usize = 0;
    assert(texts(icons@) =~= shown_icons(texts(raw)));
    while i < windows.len()
        invariant
            i <= windows.len(),
            forall|i: int|
                0 <= i < windows@.len() ==> call_requires(*icon_for, (#[trigger] windows@[i],)),
            resolved_by(icon_for, nodes_of(windows@).take(i as int), raw),
            texts(icons@) == shown_icons(texts(raw)),
        decreases windows.len() - i,
    {
        let icon = icon_for(windows[i]);
        proof {
            let longer = raw.push(icon);
            assert(texts(longer).drop_last() =~= texts(raw));
            assert(texts(longer).last() == icon@);
            assert(nodes_of(windows@).take(i + 1) =~= nodes_of(windows@).take(i as int).push(
                *windows@[i as int],
            ));
            raw = longer;
        }
        if !icon.as_str().is_empty() {
            assert(texts(icons@.push(icon)) =~= texts(icons@).push(icon@));
            icons.push(icon);
        }
        i += 1;
    }
    assert(nodes_of(windows@).take(i as int) =~= nodes_of(windows@));
    icons
}

/// What one update comes to, told by the texts that it holds.
pub enum Outcome {
    /// No workspace holds the focus.
    NoFocusedWorkspace,
    /// The focused workspace, known by its id, has no name.
    MissingName { id: i64 },
    /// The focused workspace, known by its name, has no number.
    MissingIndex { name: Seq<char> },
    /// The workspace carries its label already: nothing is sent.
    Keep,
    /// The workspace is to be renamed from the name it has to its label.
    Rename { from: Seq<char>, to: Seq<char> },
}

/// The outcome that a result of an update stands for.
pub open spec fn outcome_of(result: Result<Option<Rename>, UpdateError>) -> Outcome {
    match result {
        Err(UpdateError::NoFocusedWorkspace) => Outcome::NoFocusedWorkspace,
        Err(UpdateError::MissingName { id }) => Outcome::MissingName { id },
        Err(UpdateError::MissingIndex { name }) => Outcome::MissingIndex { name: name@ },
        Ok(None) => Outcome::Keep,
        Ok(Some(rename)) => Outcome::Rename { from: rename.from@, to: rename.to@ },
    }
}

/// The failure of a workspace that lacks its name or its number: the name is
/// asked for first.
pub open spec fn missing_attribute(workspace: Node) -> Option<Outcome> {
    match (workspace.name, workspace.num) {
        (None, _) => Some(Outcome::MissingName { id: workspace.id }),
        (Some(name), None) => Some(Outcome::MissingIndex { name: name@ }),
        (Some(_), Some(_)) => None,
    }
}

/// What is due for `workspace` when its windows show `icons`: nothing where
/// its name is the label already, else a rename from its name to the label.
pub open spec fn planned(workspace: Node, icons: Seq<Seq<char>>) -> Outcome {
    match missing_attribute(workspace) {
        Some(failure) => failure,
        None => {
            let name = workspace.name->0@;
            let label = label_text(workspace.num, icons);
            if label == name {
                Outcome::Keep
            } else {
                Outcome::Rename { from: name, to: label }
            }
        },
    }
}

/// Decides what is due for `workspace`, given the icons that its label is to
/// show.
pub fn plan_rename(workspace: &Node, icons: &Vec<String>) -> (result: Result<
    Option<Rename>,
    UpdateError,
>)
    ensures
        outcome_of(result) == planned(*workspace, texts(icons@)),
{
    match &workspace.name {
        None => Err(UpdateError::MissingName { id: workspace.id }),
        Some(name) => match workspace.num {
            None => Err(UpdateError::MissingIndex { name: name.clone() }),
            Some(number) => {
                let label = synthesize_label(Some(number), icons);
                if *name == label {
                    Ok(None)
                } else {
                    Ok(Some(Rename { from: name.clone(), to: label }))
                }
            },
        },
    }
}

/// Whether the resolver gives each window the icon that `icon_of` names.
pub open spec fn computes<F: Fn(&Node) -> String>(
    icon_for: &F,
    icon_of: spec_fn(Node) -> Seq<char>,
) -> bool {
    forall|window: &Node, icon: String| #[trigger]
        call_ensures(*icon_for, (window,), icon) ==> icon@ == icon_of(*window)
}

/// What is due for `workspace` under a resolver that gives each window the
/// icon that `icon_of` names.
pub open spec fn workspace_outcome(
    workspace: Node,
    icon_of: spec_fn(Node) -> Seq<char>,
) -> Outcome {
    planned(workspace, shown_icons(windows_of(workspace).map_values(icon_of)))
}

/// The icons that a resolver gave are those that `icon_of` names.
proof fn lemma_resolved_icons<F: Fn(&Node) -> String>(
    icon_for: &F,
    icon_of: spec_fn(Node) -> Seq<char>,
    windows: Seq<Node>,
    raw: Seq<String>,
)
    requires
        computes(icon_for, icon_of),
        resolved_by(icon_for, windows, raw),
    ensures
        texts(raw) == windows.map_values(icon_of),
{
    assert(texts(raw) =~= windows.map_values(icon_of));
}

/// Decides what is due for `workspace`: lists its windows, asks the resolver
/// for the icon of each, builds the label and holds it against the name.
pub fn update_workspace_name<F: Fn(&Node) -> String>(workspace: &Node, icon_for: &F) -> (result:
    Result<Option<Rename>, UpdateError>)
    requires
        forall|window: &Node| window.is_window() ==> call_requires(*icon_for, (window,)),
    ensures
        match missing_attribute(*workspace) {
            Some(failure) => outcome_of(result) == failure,
            None => exists|raw: Seq<String>| #[trigger]
                resolved_by(icon_for, windows_of(*workspace), raw) && outcome_of(result)
                    == planned(*workspace, shown_icons(texts(raw))),
        },
        forall|icon_of: spec_fn(Node) -> Seq<char>| #[trigger]
            computes(icon_for, icon_of) ==> outcome_of(result) == workspace_outcome(
                *workspace,
                icon_of,
            ),
{
    if workspace.name.is_none() || workspace.num.is_none() {
        let no_icons: Vec<String> = Vec::new();
        return plan_rename(workspace, &no_icons);
    }
    let windows = collect_windows(workspace);
    proof {
        lemma_windows_are_windows(*workspace);
        assert forall|i: int| 0 <= i < windows@.len() implies call_requires(
            *icon_for,
            (#[trigger] windows@[i],),
        ) by {
            assert(nodes_of(windows@)[i] == *windows@[i]);
            assert(windows_of(*workspace)[i].is_window());
        }
    }
    let icons = resolve_icons(&windows, icon_for);
    let result = plan_rename(workspace, &icons);
    proof {
        let raw = choose|raw: Seq<String>| #[trigger]
            resolved_by(icon_for, nodes_of(windows@), raw) && texts(icons@) == shown_icons(
                texts(raw),
            );
        assert forall|icon_of: spec_fn(Node) -> Seq<char>| #[trigger]
            computes(icon_for, icon_of) implies outcome_of(result) == workspace_outcome(
            *workspace,
            icon_of,
        ) by {
            lemma_resolved_icons(icon_for, icon_of, windows_of(*workspace), raw);
        }
    }
    result
}

/// The outcome of one update on the snapshot `tree` under a resolver that
/// gives each window the icon that `icon_of` names.
pub open spec fn update_outcome(tree: Node, icon_of: spec_fn(Node) -> Seq<char>) -> Outcome {
    match focus_search(Seq::empty(), tree) {
        None => Outcome::NoFocusedWorkspace,
        Some(workspace) => workspace_outcome(workspace, icon_of),
    }
}

/// One update on the snapshot `tree`: finds the focused workspace and decides
/// what is due for it. At most one rename comes of it.
pub fn update_workspace<F: Fn(&Node) -> String>(tree: &Node, icon_for: &F) -> (result: Result<
    Option<Rename>,
    UpdateError,
>)
    requires
        forall|window: &Node| window.is_window() ==> call_requires(*icon_for, (window,)),
    ensures
        match focus_search(Seq::empty(), *tree) {
            None => outcome_of(result) == Outcome::NoFocusedWorkspace,
            Some(workspace) => match missing_attribute(workspace) {
                Some(failure) => outcome_of(result) == failure,
                None => exists|raw: Seq<String>| #[trigger]
                    resolved_by(icon_for, windows_of(workspace), raw) && outcome_of(result)
                        == planned(workspace, shown_icons(texts(raw))),
            },
        },
        forall|icon_of: spec_fn(Node) -> Seq<char>| #[trigger]
            computes(icon_for, icon_of) ==> outcome_of(result) == update_outcome(*tree, icon_of),
{
    match find_focused_workspace(tree) {
        Err(e) => Err(e),
        Ok(workspace) => update_workspace_name(workspace, icon_for),
    }
}

/// Whether `after` is the node `before` under the name `name`, with nothing
/// else changed: not its other attributes, and nothing below it.
pub open spec fn renamed(before: Node, after: Node, name: Seq<char>) -> bool {
    &&& after.name is Some
    &&& after.name->0@ == name
    &&& after.id == before.id
    &&& after.node_type == before.node_type
    &&& after.focused == before.focused
    &&& after.num == before.num
    &&& after.app_id == before.app_id
    &&& after.class == before.class
    &&& after.nodes@ == before.nodes@
    &&& after.floating_nodes@ == before.floating_nodes@
}

/// Whether `after` is the tree `before` in which the node at `path` has got
/// the name `name`, with nothing else changed.
pub open spec fn renamed_at(before: Node, after: Node, path: Seq<int>, name: Seq<char>) -> bool
    decreases path.len(),
{
    if path.len() == 0 {
        renamed(before, after, name)
    } else {
        &&& after.name == before.name
        &&& after.id == before.id
        &&& after.node_type == before.node_type
        &&& after.focused == before.focused
        &&& after.num == before.num
        &&& after.app_id == before.app_id
        &&& after.class == before.class
        &&& after.nodes@.len() == before.nodes@.len()
        &&& after.floating_nodes@.len() == before.floating_nodes@.len()
        &&& 0 <= path[0] < before.children().len()
        &&& renamed_at(
            before.children()[path[0]],
            after.children()[path[0]],
            path.drop_first(),
            name,
        )
        &&& forall|k: int|
            0 <= k < before.children().len() && k != path[0] ==> after.children()[k]
                == before.children()[k]
    }
}

/// A rename leaves the frame of the tree as it was and changes the node at
/// the path, and that node's name only.
pub proof fn lemma_renamed_at(before: Node, after: Node, path: Seq<int>, name: Seq<char>)
    requires
        renamed_at(before, after, path, name),
    ensures
        same_frame(before, after),
        valid_path(before, path),
        valid_path(after, path),
        renamed(node_at(before, path), node_at(after, path), name),
    decreases path.len(),
{
    if path.len() == 0 {
        lemma_same_frame_reflexive(before);
    } else {
        let split = before.nodes@.len() as int;
        lemma_renamed_at(
            before.children()[path[0]],
            after.children()[path[0]],
            path.drop_first(),
            name,
        );
        assert forall|k: int| 0 <= k < before.nodes@.len() implies same_frame(
            before.nodes@[k],
            after.nodes@[k],
        ) by {
            assert(before.nodes@[k] == before.children()[k]);
            assert(after.nodes@[k] == after.children()[k]);
            if k != path[0] {
                lemma_same_frame_reflexive(before.nodes@[k]);
            }
        }
        assert forall|k: int| 0 <= k < before.floating_nodes@.len() implies same_frame(
            before.floating_nodes@[k],
            after.floating_nodes@[k],
        ) by {
            assert(before.floating_nodes@[k] == before.children()[split + k]);
            assert(after.floating_nodes@[k] == after.children()[split + k]);
            if split + k != path[0] {
                lemma_same_frame_reflexive(before.floating_nodes@[k]);
            }
        }
    }
}

/// A workspace that has got the label that was due for it is due for
/// nothing more: with the same icons its name is kept.
pub proof fn lemma_label_settles(before: Node, after: Node, icons: Seq<Seq<char>>)
    requires
        planned(before, icons) is Rename,
        renamed(before, after, planned(before, icons)->to),
    ensures
        planned(after, icons) == Outcome::Keep,
{
}

/// An update is idempotent. Where one update of a snapshot asks for a
/// rename, and the snapshot then differs in nothing but the new name of the
/// focused workspace, the next update with the same resolver asks for
/// nothing.
pub proof fn lemma_update_settles(before: Node, after: Node, icon_of: spec_fn(Node) -> Seq<char>)
    requires
        update_outcome(before, icon_of) is Rename,
        renamed_at(
            before,
            after,
            focus_path(before).unwrap(),
            update_outcome(before, icon_of)->to,
        ),
    ensures
        update_outcome(after, icon_of) == Outcome::Keep,
{
    let to = update_outcome(before, icon_of)->to;
    lemma_focus_path(before);
    let path = focus_path(before).unwrap();
    lemma_renamed_at(before, after, path, to);
    lemma_focus_path_of_frame(None, Seq::empty(), before, after);
    lemma_focus_path(after);
    let old_workspace = node_at(before, path);
    let new_workspace = node_at(after, path);
    assert(focus_search(Seq::empty(), after) == Some(new_workspace));
    assert(windows_of(new_workspace) == windows_of(old_workspace));
    lemma_label_settles(
        old_workspace,
        new_workspace,
        shown_icons(windows_of(old_workspace).map_values(icon_of)),
    );
}

} // verus!
