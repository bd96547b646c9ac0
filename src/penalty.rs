use vstd::prelude::*;

verus! {

/// The cost of each kind of edit: an aligned pair that matches, an aligned pair
/// that does not, and a gap in either sequence.
#[derive(Clone, Copy, Debug, PartialEq, Eq, Structural)]
pub struct Penalty {
    pub matched: i64,
    pub mismatch: i64,
    pub gap: i64,
}

} // verus!
