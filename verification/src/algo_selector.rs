//! Advisory strategy selection: a stub that always requests automatic
//! mode. The dispatcher must tolerate exactly this.

use vstd::prelude::*;

use crate::types::{RoutingAlgo, Slippage};

verus! {

/// Picks the strategy to run for a graph of the given size under the
/// given slippage tolerance. Currently always `Auto`.
pub fn select_best_algo(_num_tokens: usize, _num_pools: usize, _slippage: Slippage) -> (r:
    RoutingAlgo)
    ensures
        r == RoutingAlgo::Auto,
{
    RoutingAlgo::Auto
}

} // verus!
