//! Line diffs and three-way merges of texts, and small building blocks of
//! a text editor's UI.

pub mod button;
pub mod bytes;
pub mod clipboard;
pub mod diff;
pub mod layout;
pub mod lcs;
pub mod lines;
pub mod merge;
pub mod ui_ctx;
