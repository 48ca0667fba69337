//! Button roles of the design system.

use vstd::prelude::*;

verus! {

/// Button roles: `Primary` is the accent call-to-action, `Outlined` the
/// quiet outlined chip. Labels are caps-tracked; callers pass UPPERCASE.
#[derive(Clone, Copy, Debug, PartialEq, Eq)]
pub enum ButtonRole {
    Primary,
    Outlined,
}

} // verus!
