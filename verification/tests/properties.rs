use uniswap_routing::amount::{Amount, ATOMS_PER_UNIT, MAX_ATOMS};
use uniswap_routing::astar::astar;
use uniswap_routing::best_direct::best_direct;
use uniswap_routing::bfs::bfs;
use uniswap_routing::circular::circular;
use uniswap_routing::dfs::dfs;
use uniswap_routing::dijkstra::dijkstra;
use uniswap_routing::graph::Graph;
use uniswap_routing::route_engine::execute;
use uniswap_routing::types::{
    ExecutionParams, Pool, Route, RoutingAlgo, Side, Slippage, Token,
};

fn units(u: u64) -> Amount {
    Amount::from_units(u).unwrap()
}

fn pool(a: u64, b: u64, ra: u64, rb: u64, fee_bps: u32) -> Pool {
    Pool {
        token0: Token(a),
        token1: Token(b),
        reserve0: units(ra),
        reserve1: units(rb),
        fee_bps,
    }
}

fn params(algo: RoutingAlgo, max_hops: usize) -> ExecutionParams {
    ExecutionParams {
        algo,
        slippage: Slippage { tolerance_bps: 100 },
        max_hops,
    }
}

#[test]
fn amount_constructors_respect_the_bound() {
    assert_eq!(ATOMS_PER_UNIT, 1_000_000);
    assert_eq!(units(10).atoms, 10_000_000);
    assert_eq!(Amount::from_atoms(MAX_ATOMS).unwrap().atoms, MAX_ATOMS);
    assert!(Amount::from_atoms(MAX_ATOMS + 1).is_none());
    assert!(Amount::from_units(u64::MAX).is_none());
    assert_eq!(
        Amount::from_units(100_000_000_000).unwrap().atoms,
        MAX_ATOMS
    );
    assert!(Amount::from_units(100_000_000_001).is_none());
    assert_eq!(Amount::zero().atoms, 0);
}

#[test]
fn empty_graph_has_no_tokens_and_no_routes() {
    let graph = Graph::new(&[]);
    assert!(graph.tokens().is_empty());
    assert!(graph.neighbors(&Token(1)).is_empty());
    assert!(execute(
        Side::Buy,
        &graph,
        &Token(1),
        &Token(2),
        units(1),
        params(RoutingAlgo::Auto, 4),
    )
    .is_none());
}

#[test]
fn single_hop_bound_still_takes_the_direct_edge() {
    let pools = vec![
        pool(1, 2, 1000, 1_000_000, 30),
        pool(2, 3, 1_000_000, 1_000_000, 30),
        pool(1, 3, 1000, 900_000, 30),
    ];
    let graph = Graph::new(&pools);
    // only one hop allowed: the two-hop detour is out, the direct pool is in
    let r = execute(
        Side::Buy,
        &graph,
        &Token(1),
        &Token(3),
        units(10),
        params(RoutingAlgo::Auto, 1),
    )
    .expect("direct route not found");
    assert_eq!(r.1.steps.len(), 1);
    assert_eq!(r.1.steps[0].from, Token(1));
    assert_eq!(r.1.steps[0].to, Token(3));
}

#[test]
fn pricing_exact_value() {
    // 10 ETH into a 1000 / 1,000,000 pool at 30 bps pays 9871.580343 out
    let p = pool(1, 2, 1000, 1_000_000, 30);
    let out = p.get_output_amount(&Token(1), units(10)).unwrap();
    assert_eq!(out.atoms, 9_871_580_343);
    // the reverse direction prices against the other reserve
    let back = p.get_output_amount(&Token(2), units(10_000)).unwrap();
    assert!(back.atoms > 0);
    assert!(back.atoms < 10_000_000_000);
}

#[test]
fn pricing_rejects_foreign_asset_and_empty_reserve() {
    let p = pool(1, 2, 1000, 1_000_000, 30);
    // not one of the pool's two assets
    assert!(p.get_output_amount(&Token(9), units(1)).is_none());
    // empty reserve on the input side is impassable, not a division fault
    let drained = Pool {
        token0: Token(1),
        token1: Token(2),
        reserve0: Amount::zero(),
        reserve1: units(1_000_000),
        fee_bps: 30,
    };
    assert!(drained.get_output_amount(&Token(1), units(1)).is_none());
    // and the other side still prices
    assert!(drained.get_output_amount(&Token(2), units(1)).is_some());
}

#[test]
fn pool_supports_and_other_token() {
    let p = pool(1, 2, 10, 10, 0);
    assert!(p.supports(&Token(1), &Token(2)));
    assert!(p.supports(&Token(2), &Token(1)));
    assert!(!p.supports(&Token(1), &Token(3)));
    assert_eq!(p.get_other_token(&Token(1)), Some(Token(2)));
    assert_eq!(p.get_other_token(&Token(2)), Some(Token(1)));
    assert_eq!(p.get_other_token(&Token(3)), None);
}

#[test]
fn fee_monotonicity_on_a_fixed_chain() {
    // identical reserves and input, only the fee differs
    let cheap = pool(1, 2, 1000, 1_000_000, 30);
    let dear = pool(1, 2, 1000, 1_000_000, 100);
    let out_cheap = cheap.get_output_amount(&Token(1), units(10)).unwrap();
    let out_dear = dear.get_output_amount(&Token(1), units(10)).unwrap();
    assert_eq!(out_cheap.atoms, 9_871_580_343);
    assert_eq!(out_dear.atoms, 9_802_950_787);
    assert!(out_dear.atoms < out_cheap.atoms);

    // the same holds through a two-pool chain, raising one pool's fee
    let tail = pool(2, 3, 1_000_000, 1_000_000, 30);
    let mid_cheap = out_cheap;
    let mid_dear = out_dear;
    let end_cheap = tail.get_output_amount(&Token(2), mid_cheap).unwrap();
    let end_dear = tail.get_output_amount(&Token(2), mid_dear).unwrap();
    assert!(end_dear.atoms < end_cheap.atoms);
}

#[test]
fn neighbors_pair_each_pool_with_its_other_side() {
    let p1 = pool(1, 2, 1000, 1_000_000, 30);
    let p2 = pool(1, 3, 2000, 900_000, 30);
    let p3 = pool(2, 3, 500, 500, 30);
    let graph = Graph::new(&[p1, p2, p3]);

    let n1 = graph.neighbors(&Token(1));
    assert_eq!(n1.len(), 2);
    assert_eq!(n1[0], (Token(2), p1));
    assert_eq!(n1[1], (Token(3), p2));

    let n2 = graph.neighbors(&Token(2));
    assert_eq!(n2.len(), 2);
    assert_eq!(n2[0], (Token(1), p1));
    assert_eq!(n2[1], (Token(3), p3));

    let n9 = graph.neighbors(&Token(9));
    assert!(n9.is_empty());

    let mut tokens = graph.tokens();
    tokens.sort_by_key(|t| t.0);
    assert_eq!(tokens, vec![Token(1), Token(2), Token(3)]);
}

#[test]
fn connectivity_and_hop_bound_hold_for_every_strategy() {
    let pools = vec![
        pool(1, 2, 1000, 1_000_000, 30),
        pool(2, 3, 1_000_000, 1_000_000, 30),
        pool(3, 4, 1_000_000, 50, 30),
        pool(1, 4, 1000, 50, 30),
    ];
    let graph = Graph::new(&pools);
    let from = Token(1);
    let to = Token(4);
    let input = units(10);
    let strategies: Vec<(&str, Option<Route>)> = vec![
        ("best_direct", best_direct(Side::Buy, &graph, &from, &to, input, params(RoutingAlgo::BestDirect, 4))),
        ("bfs", bfs(Side::Buy, &graph, &from, &to, input, params(RoutingAlgo::Bfs, 4))),
        ("dfs", dfs(Side::Buy, &graph, &from, &to, input, params(RoutingAlgo::Dfs, 4))),
        ("dijkstra", dijkstra(Side::Buy, &graph, &from, &to, input, params(RoutingAlgo::Dijkstra, 4))),
        ("astar", astar(Side::Buy, &graph, &from, &to, input, params(RoutingAlgo::AStar, 4))),
    ];
    for (name, r) in strategies {
        let route = r.unwrap_or_else(|| panic!("{} found no route", name));
        assert!(!route.steps.is_empty(), "{}", name);
        assert!(route.steps.len() <= 4, "{}", name);
        assert_eq!(route.steps.first().unwrap().from, from, "{}", name);
        assert_eq!(route.steps.last().unwrap().to, to, "{}", name);
        for i in 1..route.steps.len() {
            assert_eq!(route.steps[i - 1].to, route.steps[i].from, "{}", name);
        }
        assert!(route.output_amount.atoms > 0, "{}", name);
    }
}

#[test]
fn auto_is_at_least_direct_best() {
    let pools = vec![
        pool(1, 2, 1000, 1_000_000, 30),
        pool(2, 3, 1_000_000, 1_000_000, 30),
        pool(3, 4, 1_000_000, 50, 30),
        pool(1, 4, 1000, 50, 30),
    ];
    let graph = Graph::new(&pools);
    let input = units(10);
    let direct = execute(
        Side::Buy,
        &graph,
        &Token(1),
        &Token(4),
        input,
        params(RoutingAlgo::BestDirect, 4),
    )
    .unwrap();
    let auto = execute(
        Side::Buy,
        &graph,
        &Token(1),
        &Token(4),
        input,
        params(RoutingAlgo::Auto, 4),
    )
    .unwrap();
    assert!(auto.1.output_amount.atoms >= direct.1.output_amount.atoms);
    // the direct pool prices 10 ETH at exactly 0.493579 WBTC
    assert_eq!(direct.1.output_amount.atoms, 493_579);
    assert_eq!(direct.0, RoutingAlgo::BestDirect);
}

#[test]
fn no_route_when_nothing_connects() {
    // two disjoint pairs: no path of any length from 1 to 4
    let pools = vec![
        pool(1, 2, 1000, 1_000_000, 30),
        pool(3, 4, 1_000_000, 50, 30),
    ];
    let graph = Graph::new(&pools);
    let from = Token(1);
    let to = Token(4);
    let input = units(10);
    assert!(best_direct(Side::Buy, &graph, &from, &to, input, params(RoutingAlgo::BestDirect, 4)).is_none());
    assert!(bfs(Side::Buy, &graph, &from, &to, input, params(RoutingAlgo::Bfs, 4)).is_none());
    assert!(dfs(Side::Buy, &graph, &from, &to, input, params(RoutingAlgo::Dfs, 4)).is_none());
    assert!(dijkstra(Side::Buy, &graph, &from, &to, input, params(RoutingAlgo::Dijkstra, 4)).is_none());
    assert!(astar(Side::Buy, &graph, &from, &to, input, params(RoutingAlgo::AStar, 4)).is_none());
    assert!(execute(Side::Buy, &graph, &from, &to, input, params(RoutingAlgo::Auto, 4)).is_none());
}

#[test]
fn no_route_within_too_small_a_hop_bound() {
    // 1-2-3-4 in a line: reaching 4 needs three hops
    let pools = vec![
        pool(1, 2, 1000, 1_000_000, 30),
        pool(2, 3, 1_000_000, 1_000_000, 30),
        pool(3, 4, 1_000_000, 50, 30),
    ];
    let graph = Graph::new(&pools);
    let from = Token(1);
    let to = Token(4);
    let input = units(10);
    for algo in [
        RoutingAlgo::BestDirect,
        RoutingAlgo::Bfs,
        RoutingAlgo::Dfs,
        RoutingAlgo::Dijkstra,
        RoutingAlgo::AStar,
        RoutingAlgo::Auto,
    ] {
        assert!(
            execute(Side::Buy, &graph, &from, &to, input, params(algo, 2)).is_none(),
            "{:?}",
            algo
        );
    }
    // with three hops allowed, the line is passable
    assert!(execute(Side::Buy, &graph, &from, &to, input, params(RoutingAlgo::Auto, 3)).is_some());
}

#[test]
fn no_empty_route_when_source_equals_destination() {
    let pools = vec![
        pool(1, 2, 1000, 1_000_000, 30),
        pool(2, 3, 1_000_000, 1_000_000, 30),
    ];
    let graph = Graph::new(&pools);
    let input = units(10);
    for algo in [
        RoutingAlgo::BestDirect,
        RoutingAlgo::Bfs,
        RoutingAlgo::Dfs,
        RoutingAlgo::Dijkstra,
        RoutingAlgo::AStar,
        RoutingAlgo::Auto,
    ] {
        let r = execute(Side::Buy, &graph, &Token(1), &Token(1), input, params(algo, 4));
        if let Some((_, route)) = r {
            assert!(!route.steps.is_empty(), "{:?}", algo);
        }
    }
}

#[test]
fn arbitrage_cycle_profitable_and_not() {
    // three fee-free pools whose cross rates multiply to 8: a profitable
    // cycle exists
    let winners = vec![
        pool(1, 2, 100, 200, 0),
        pool(2, 3, 100, 200, 0),
        pool(3, 1, 100, 200, 0),
    ];
    let graph = Graph::new(&winners);
    let input = units(1);
    let cycle = circular(
        Side::Buy,
        &graph,
        &Token(1),
        &Token(1),
        input,
        params(RoutingAlgo::Auto, 4),
    )
    .expect("profitable cycle not found");
    assert!(!cycle.steps.is_empty());
    assert_eq!(cycle.steps.first().unwrap().from, Token(1));
    assert_eq!(cycle.steps.last().unwrap().to, Token(1));
    assert!(cycle.output_amount.atoms > input.atoms, "cycle should profit");
    assert_eq!(cycle.output_amount.atoms, 7_476_635);

    // balanced pools with fees: the best cycle only loses value, and must
    // not be misreported as profitable
    let losers = vec![
        pool(1, 2, 100, 100, 30),
        pool(2, 3, 100, 100, 30),
        pool(3, 1, 100, 100, 30),
    ];
    let graph2 = Graph::new(&losers);
    let cycle2 = circular(
        Side::Buy,
        &graph2,
        &Token(1),
        &Token(1),
        input,
        params(RoutingAlgo::Auto, 4),
    )
    .expect("a best cycle should still be reported");
    assert!(cycle2.output_amount.atoms <= input.atoms);
}

#[test]
fn concrete_scenario_direct_pool_bounds_hops() {
    // ETH(1)-USDC(2) 1000/1,000,000, USDC-DAI(3) 1M/1M, DAI-WBTC(4) 1M/50,
    // ETH-WBTC 1000/50, all at 30 bps; ETH to WBTC with input 10 and at
    // most 4 hops must pay out over at most 3 steps
    let pools = vec![
        pool(1, 2, 1000, 1_000_000, 30),
        pool(2, 3, 1_000_000, 1_000_000, 30),
        pool(3, 4, 1_000_000, 50, 30),
        pool(1, 4, 1000, 50, 30),
    ];
    let graph = Graph::new(&pools);
    let r = execute(
        Side::Buy,
        &graph,
        &Token(1),
        &Token(4),
        units(10),
        params(RoutingAlgo::Auto, 4),
    )
    .expect("route not found");
    assert!(!r.1.steps.is_empty());
    assert!(r.1.output_amount.atoms > 0);
    assert!(r.1.steps.len() <= 3);
}

#[test]
fn repeated_queries_give_identical_routes() {
    let pools = vec![
        pool(1, 2, 1000, 1_000_000, 30),
        pool(2, 3, 1_000_000, 1_000_000, 30),
        pool(3, 4, 1_000_000, 50, 30),
        pool(1, 4, 1000, 50, 30),
        pool(1, 4, 900, 51, 25),
    ];
    let graph = Graph::new(&pools);
    let input = units(10);
    for algo in [
        RoutingAlgo::BestDirect,
        RoutingAlgo::Bfs,
        RoutingAlgo::Dfs,
        RoutingAlgo::Dijkstra,
        RoutingAlgo::AStar,
        RoutingAlgo::Auto,
    ] {
        let first = execute(Side::Buy, &graph, &Token(1), &Token(4), input, params(algo, 4));
        let second = execute(Side::Buy, &graph, &Token(1), &Token(4), input, params(algo, 4));
        assert_eq!(first, second, "{:?}", algo);
    }
    let c1 = circular(Side::Buy, &graph, &Token(1), &Token(1), input, params(RoutingAlgo::Auto, 4));
    let c2 = circular(Side::Buy, &graph, &Token(1), &Token(1), input, params(RoutingAlgo::Auto, 4));
    assert_eq!(c1, c2);
}
