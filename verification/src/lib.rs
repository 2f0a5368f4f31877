//! Workspace labels made of the icons of the windows that a workspace holds.
//!
//! The crate works on a snapshot of a compositor's layout tree: it finds the
//! workspace that holds the input focus, lists the windows below it, builds
//! the label that the workspace should carry and decides whether a rename is
//! due.

pub mod error;
pub mod focus;
pub mod label;
pub mod tree;
pub mod update;
pub mod windows;
