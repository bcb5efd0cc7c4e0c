//! Dispatcher: runs one named strategy, or races all five and keeps the
//! highest-output result.

use vstd::prelude::*;

use crate::amount::Amount;
use crate::astar::astar;
use crate::best_direct::{best_direct, direct_best_out, lemma_direct_best_iff_edge};
use crate::bfs::bfs;
use crate::chain::{has_direct_edge, valid_route};
use crate::dfs::dfs;
use crate::dijkstra::dijkstra;
use crate::graph::Graph;
use crate::types::{ExecutionParams, Route, RoutingAlgo, Side, Token};

verus! {

/// What the dispatcher promises of a result: a valid route within the hop
/// bound, tagged with the strategy that produced it.
pub open spec fn engine_result_ok(
    g: Graph,
    from: Token,
    to: Token,
    a0: int,
    m: int,
    r: Option<(RoutingAlgo, Route)>,
) -> bool {
    r matches Some(p) ==> valid_route(g.pools@, p.1, from, to, a0) && p.1.steps@.len() <= m
}

/// Runs the strategy `params.algo` names, or all five for `Auto`, and
/// tags the result with the strategy that produced it. For `BestDirect`
/// the result is exactly the best direct edge's; for `Auto` it succeeds
/// whenever a direct edge pays out, with at least that output.
pub fn execute(
    side: Side,
    graph: &Graph,
    from: &Token,
    to: &Token,
    amount_in: Amount,
    exec_params: ExecutionParams,
) -> (r: Option<(RoutingAlgo, Route)>)
    requires
        graph.wf(),
        amount_in.wf(),
        exec_params.max_hops >= 1,
    ensures
        engine_result_ok(
            *graph,
            *from,
            *to,
            amount_in.atoms as int,
            exec_params.max_hops as int,
            r,
        ),
        exec_params.algo != RoutingAlgo::Auto ==> (r matches Some(p) ==> p.0
            == exec_params.algo),
        exec_params.algo == RoutingAlgo::BestDirect ==> {
            &&& (r is Some) == (direct_best_out(
                graph.pools@,
                *from,
                *to,
                amount_in.atoms as int,
            ) is Some)
            &&& r matches Some(p) ==> Some(p.1.output_amount.atoms as int) == direct_best_out(
                graph.pools@,
                *from,
                *to,
                amount_in.atoms as int,
            )
        },
        exec_params.algo == RoutingAlgo::Auto ==> (direct_best_out(
            graph.pools@,
            *from,
            *to,
            amount_in.atoms as int,
        ) matches Some(v) ==> (r matches Some(p) && p.1.output_amount.atoms as int >= v)),
        *from != *to && has_direct_edge(graph.pools@, *from, *to) ==> r is Some,
{
    proof {
        lemma_direct_best_iff_edge(graph.pools@, *from, *to, amount_in.atoms as int);
    }
    match exec_params.algo {
        RoutingAlgo::BestDirect => match best_direct(side, graph, from, to, amount_in,
            exec_params) {
            Some(route) => Some((RoutingAlgo::BestDirect, route)),
            None => None,
        },
        RoutingAlgo::AStar => match astar(side, graph, from, to, amount_in, exec_params) {
            Some(route) => Some((RoutingAlgo::AStar, route)),
            None => None,
        },
        RoutingAlgo::Dijkstra => match dijkstra(side, graph, from, to, amount_in, exec_params) {
            Some(route) => Some((RoutingAlgo::Dijkstra, route)),
            None => None,
        },
        RoutingAlgo::Bfs => match bfs(side, graph, from, to, amount_in, exec_params) {
            Some(route) => Some((RoutingAlgo::Bfs, route)),
            None => None,
        },
        RoutingAlgo::Dfs => match dfs(side, graph, from, to, amount_in, exec_params) {
            Some(route) => Some((RoutingAlgo::Dfs, route)),
            None => None,
        },
        RoutingAlgo::Auto => select_best_route(side, graph, from, to, amount_in, exec_params),
    }
}

/// Runs all five strategies on the same query and keeps the result with
/// the highest output, later strategies in the race order winning ties;
/// fails only if all five fail. The result's output is never below the
/// best direct edge's, since direct-best is one of the candidates.
pub fn select_best_route(
    side: Side,
    graph: &Graph,
    from: &Token,
    to: &Token,
    amount_in: Amount,
    params: ExecutionParams,
) -> (r: Option<(RoutingAlgo, Route)>)
    requires
        graph.wf(),
        amount_in.wf(),
        params.max_hops >= 1,
    ensures
        engine_result_ok(
            *graph,
            *from,
            *to,
            amount_in.atoms as int,
            params.max_hops as int,
            r,
        ),
        direct_best_out(graph.pools@, *from, *to, amount_in.atoms as int) matches Some(v) ==> (
        r matches Some(p) && p.1.output_amount.atoms as int >= v),
        *from != *to && has_direct_edge(graph.pools@, *from, *to) ==> r is Some,
{
    let ghost a0 = amount_in.atoms as int;
    let ghost m = params.max_hops as int;
    let cand_direct = best_direct(side, graph, from, to, amount_in, params);
    let cand_astar = astar(side, graph, from, to, amount_in, params);
    let cand_dijkstra = dijkstra(side, graph, from, to, amount_in, params);
    let cand_bfs = bfs(side, graph, from, to, amount_in, params);
    let cand_dfs = dfs(side, graph, from, to, amount_in, params);
    let mut best: Option<(RoutingAlgo, Route)> = match cand_direct {
        Some(route) => Some((RoutingAlgo::BestDirect, route)),
        None => None,
    };
    best = keep_better(best, RoutingAlgo::AStar, cand_astar, graph, from, to, amount_in,
        params);
    best = keep_better(best, RoutingAlgo::Dijkstra, cand_dijkstra, graph, from, to, amount_in,
        params);
    best = keep_better(best, RoutingAlgo::Bfs, cand_bfs, graph, from, to, amount_in, params);
    best = keep_better(best, RoutingAlgo::Dfs, cand_dfs, graph, from, to, amount_in, params);
    best
}

/// Keeps the better of the result so far and one more candidate, the
/// newer winning ties, without ever lowering the output.
fn keep_better(
    best: Option<(RoutingAlgo, Route)>,
    algo: RoutingAlgo,
    candidate: Option<Route>,
    graph: &Graph,
    from: &Token,
    to: &Token,
    amount_in: Amount,
    params: ExecutionParams,
) -> (r: Option<(RoutingAlgo, Route)>)
    requires
        engine_result_ok(
            *graph,
            *from,
            *to,
            amount_in.atoms as int,
            params.max_hops as int,
            best,
        ),
        candidate matches Some(rt) ==> valid_route(
            graph.pools@,
            rt,
            *from,
            *to,
            amount_in.atoms as int,
        ) && rt.steps@.len() <= params.max_hops,
    ensures
        engine_result_ok(
            *graph,
            *from,
            *to,
            amount_in.atoms as int,
            params.max_hops as int,
            r,
        ),
        best matches Some(p) ==> (r matches Some(q) && q.1.output_amount.atoms
            >= p.1.output_amount.atoms),
        candidate matches Some(rt) ==> (r matches Some(q) && q.1.output_amount.atoms
            >= rt.output_amount.atoms),
{
    match (best, candidate) {
        (None, None) => None,
        (None, Some(rt)) => Some((algo, rt)),
        (Some(p), None) => Some(p),
        (Some(p), Some(rt)) => {
            if rt.output_amount.atoms >= p.1.output_amount.atoms {
                Some((algo, rt))
            } else {
                Some(p)
            }
        },
    }
}

} // verus!
