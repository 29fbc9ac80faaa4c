use vstd::prelude::*;

verus! {

/// One layer of a board: its name, and the files of its bitmap and of its
/// Gerber text.
pub struct Layer {
    pub name: String,
    pub bitmap: String,
    pub gerber: String,
}

} // verus!
