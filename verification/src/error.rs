//! What can keep a workspace from being relabelled.

use crate::label::{decimal, push_decimal};
use vstd::prelude::*;
use vstd::string::*;

verus! {

/// Why one update of the focused workspace's label was given up.
#[derive(Debug, PartialEq, Eq)]
pub enum UpdateError {
    /// No workspace of the snapshot holds the focus.
    NoFocusedWorkspace,
    /// The focused workspace, known by its id, carries no name.
    MissingName { id: i64 },
    /// The focused workspace, known by its name, carries no number.
    MissingIndex { name: String },
}

impl UpdateError {
    /// The error in words.
    pub open spec fn text(&self) -> Seq<char> {
        match self {
            UpdateError::NoFocusedWorkspace => "Could not find a workspace with focus"@,
            UpdateError::MissingName { id } => "Could not get name for workspace with id: "@
                + decimal(*id as int),
            UpdateError::MissingIndex { name } => "Could not fetch index for: "@ + name@,
        }
    }

    /// The error in words, for a log line.
    pub fn message(&self) -> (s: String)
        ensures
            s@ == self.text(),
    {
        match self {
            UpdateError::NoFocusedWorkspace => "Could not find a workspace with focus".to_owned(),
            UpdateError::MissingName { id } => {
                let mut s = "Could not get name for workspace with id: ".to_owned();
                push_decimal(&mut s, *id);
                s
            },
            UpdateError::MissingIndex { name } => {
                let mut s = "Could not fetch index for: ".to_owned();
                s.append(name.as_str());
                s
            },
        }
    }
}

} // verus!
