use vstd::prelude::*;

verus! {

/// One stored sample: a position on the horizontal axis and the value there.
///
/// `x` is a whole number of position units (a sample index, a frequency).
/// `y` is a 64-bit payload that the stores carry and never interpret.
#[derive(Clone, Copy, Debug, PartialEq, Eq, Structural)]
pub struct Measurement {
    pub x: u64,
    pub y: u64,
}

/// Positions never go down from one sample to the next.
pub open spec fn is_sorted(s: Seq<Measurement>) -> bool {
    forall|i: int, j: int| 0 <= i <= j < s.len() ==> s[i].x <= s[j].x
}

} // verus!
