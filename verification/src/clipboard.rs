//! What a view that takes part in copy and paste provides.

use vstd::prelude::*;

verus! {

/// Text on its way to or from the clipboard.
pub struct ClipboardContent {
    pub text: String,
}

/// Copy, cut and paste, as a view offers them.
pub trait ClipboardClient {
    /// The selection's content, left in place; `None` when there is
    /// nothing to copy.
    fn copy(&mut self) -> Option<ClipboardContent>;

    /// The selection's content, removed; `None` when there is nothing to
    /// cut.
    fn cut(&mut self) -> Option<ClipboardContent>;

    /// Inserts `content`; whether the view took it.
    fn paste(&mut self, content: &ClipboardContent) -> bool;
}

} // verus!
