//! The migration shim of the layout stage: a sizing closure lifted into a
//! layout value.

use vstd::prelude::*;

verus! {

/// A sizing closure standing as a layout: laid out, it is called with the
/// arena and the constraints.
pub struct Laid<F>(pub F);

/// Lifts a sizing closure (an old `layout` body, verbatim) into a layout
/// value. A `laid` at a call site marks placement arithmetic not yet
/// extracted.
pub fn laid<F>(sizing: F) -> (r: Laid<F>)
    ensures
        r.0 == sizing,
{
    Laid(sizing)
}

} // verus!
