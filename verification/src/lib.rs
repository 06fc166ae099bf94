//! Decisions and text handling of the AdvDupe2 editor, verified with Verus.

pub mod add_window;
pub mod catalogue;
pub mod cli;
pub mod gallery;
pub mod menus;
pub mod naming;
pub mod setup;
pub mod shortcuts;
pub mod text;
pub mod tree;
