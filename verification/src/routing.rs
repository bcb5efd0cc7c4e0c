//! The routing port: the interface callers program against, and its
//! default implementation over the route engine.

use vstd::prelude::*;

use crate::amount::Amount;
use crate::chain::has_direct_edge;
use crate::graph::Graph;
use crate::route_engine::{engine_result_ok, execute};
use crate::types::{ExecutionParams, Route, RoutingAlgo, Side, Token};

verus! {

/// A route computation: from a graph and a query to at most one tagged
/// route, always a valid one within the hop bound.
pub trait RoutingStrategy {
    /// Computes the best route the implementation can offer for the
    /// query, or nothing.
    fn compute_route(
        &self,
        side: Side,
        graph: &Graph,
        from: &Token,
        to: &Token,
        amount_in: Amount,
        params: ExecutionParams,
    ) -> (r: Option<(RoutingAlgo, Route)>)
        requires
            graph.wf(),
            amount_in.wf(),
            params.max_hops >= 1,
        ensures
            engine_result_ok(
                *graph,
                *from,
                *to,
                amount_in.atoms as int,
                params.max_hops as int,
                r,
            ),
            *from != *to && has_direct_edge(graph.pools@, *from, *to) ==> r is Some,
    ;
}

/// The default router: dispatches to the route engine.
pub struct DefaultRouter;

impl RoutingStrategy for DefaultRouter {
    fn compute_route(
        &self,
        side: Side,
        graph: &Graph,
        from: &Token,
        to: &Token,
        amount_in: Amount,
        params: ExecutionParams,
    ) -> (r: Option<(RoutingAlgo, Route)>)
    {
        execute(side, graph, from, to, amount_in, params)
    }
}

} // verus!
