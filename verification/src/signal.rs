//! The trading decision type shared with the strategy glue around the
//! library.

use vstd::prelude::*;

verus! {

/// A trading decision: enter, exit, or do nothing.
#[derive(Debug, PartialEq, Eq, Structural)]
pub enum TradeSignal {
    Buy,
    Sell,
    Hold,
}

} // verus!
