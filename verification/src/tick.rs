use vstd::prelude::*;

verus! {

/// One timestamped bid/ask quote observation. Prices are fixed-point
/// integers carrying four decimal places.
#[derive(Clone, Copy, PartialEq, Eq, Structural, Debug)]
pub struct Tick {
    pub ts_ms: u64,
    pub bid: i64,
    pub ask: i64,
}

} // verus!
