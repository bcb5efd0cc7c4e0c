use uniswap_routing::algo_selector::select_best_algo;
use uniswap_routing::amount::Amount;
use uniswap_routing::graph::Graph;
use uniswap_routing::routing::{DefaultRouter, RoutingStrategy};
use uniswap_routing::types::{
    ExecutionParams, Pool, Route, RoutingAlgo, Side, Slippage, Token,
};

// asset identifiers used across the scenarios
fn eth() -> Token {
    Token(1)
}
fn usdc() -> Token {
    Token(2)
}
fn dai() -> Token {
    Token(3)
}
fn wbtc() -> Token {
    Token(4)
}
fn usdt() -> Token {
    Token(5)
}

fn units(u: u64) -> Amount {
    Amount::from_units(u).unwrap()
}

fn pool(a: Token, b: Token, ra: u64, rb: u64, fee_bps: u32) -> Pool {
    Pool {
        token0: a,
        token1: b,
        reserve0: units(ra),
        reserve1: units(rb),
        fee_bps,
    }
}

fn setup_graph() -> (Graph, Vec<Pool>) {
    let pools = vec![
        pool(eth(), usdc(), 1000, 1_000_000, 30),
        pool(usdc(), dai(), 1_000_000, 1_000_000, 30),
        pool(dai(), wbtc(), 1_000_000, 50, 30),
        pool(eth(), wbtc(), 1000, 50, 30),
    ];
    let graph = Graph::new(&pools);
    (graph, pools)
}

fn get_reference_pools() -> Vec<Pool> {
    vec![
        pool(eth(), usdc(), 2000, 2_000_000, 30),
        pool(eth(), usdc(), 1000, 1_000_000, 30),
        pool(eth(), dai(), 1000, 900_000, 30),
        pool(eth(), dai(), 3000, 2_800_000, 30),
        pool(eth(), dai(), 3000, 3_100_000, 30),
        pool(dai(), usdc(), 1_000_000, 1_000_000, 30),
        pool(dai(), usdc(), 2_000_000, 2_000_000, 30),
        pool(dai(), usdt(), 1_000_000, 900_000, 30),
        pool(dai(), usdt(), 900_000, 1_000_000, 30),
        pool(eth(), usdt(), 2000, 2_000_000, 30),
        pool(eth(), usdt(), 10_000, 10_000_000, 30),
    ]
}

fn validate_route(route: &Route, from: Token, to: Token) {
    assert!(route.output_amount.atoms > 0, "Output amount should be > 0");
    assert_eq!(route.steps.first().unwrap().from, from);
    assert_eq!(route.steps.last().unwrap().to, to);
    for i in 1..route.steps.len() {
        assert_eq!(route.steps[i - 1].to, route.steps[i].from);
    }
}

#[test]
fn test_direct_and_indirect_route() {
    let (graph, _) = setup_graph();
    let router = DefaultRouter;
    let from = eth();
    let to = wbtc();
    let params = ExecutionParams {
        slippage: Slippage { tolerance_bps: 100 },
        algo: RoutingAlgo::Auto,
        max_hops: 4,
    };

    let route = router.compute_route(Side::Buy, &graph, &from, &to, units(10), params);
    assert!(route.is_some());
    let (_algo, route) = route.unwrap();
    assert!(route.output_amount.atoms > 0);
    assert!(route.steps.len() <= 3);
    println!("Best route: {:?}", route);
}

#[test]
fn test_slippage_enforced() {
    let (graph, _) = setup_graph();
    let from = eth();
    let to = wbtc();
    let input = units(10);
    // a tolerance of 0.01, expressed in basis points
    let max_slippage_bps: u64 = 100;

    let base_router = DefaultRouter;
    let params = ExecutionParams {
        slippage: Slippage {
            tolerance_bps: max_slippage_bps as u32,
        },
        algo: RoutingAlgo::Dijkstra,
        max_hops: 4,
    };

    if let Some((_algo, route)) =
        base_router.compute_route(Side::Buy, &graph, &from, &to, input, params)
    {
        // worst-case output at the tolerated slippage off the effective rate
        let out = route.output_amount.atoms as u128;
        let worst_case = out * (10_000 - max_slippage_bps as u128) / 10_000;
        assert!(out >= worst_case);
    } else {
        panic!("No route found with slippage tolerance");
    }
}

#[test]
fn test_full_eth_usdc_routing_scenario() {
    let pools = get_reference_pools();
    let graph = Graph::new(&pools);
    let router = DefaultRouter;

    let eth_in = units(10);
    let usdc_in = units(10_000);

    let route1 = router.compute_route(
        Side::Buy,
        &graph,
        &eth(),
        &usdc(),
        eth_in,
        ExecutionParams {
            slippage: Slippage { tolerance_bps: 100 },
            algo: RoutingAlgo::Auto,
            max_hops: 4,
        },
    );
    assert!(route1.is_some(), "ETH → USDC route not found");
    validate_route(&route1.unwrap().1, eth(), usdc());

    let route2 = router.compute_route(
        Side::Buy,
        &graph,
        &usdc(),
        &eth(),
        usdc_in,
        ExecutionParams {
            slippage: Slippage { tolerance_bps: 100 },
            algo: RoutingAlgo::Auto,
            max_hops: 4,
        },
    );
    assert!(route2.is_some(), "USDC → ETH route not found");
    validate_route(&route2.unwrap().1, usdc(), eth());
}

#[test]
fn test_multiple_best_routes_and_algo_selection() {
    let pools = get_reference_pools();
    let graph = Graph::new(&pools);
    let router = DefaultRouter;
    let scenarios: Vec<(Token, Token, Amount, u32)> = vec![
        (eth(), usdc(), units(10), 100),
        (usdc(), eth(), units(10_000), 100),
        (eth(), usdt(), units(5), 50),
        (usdt(), eth(), units(20_000), 30),
        (eth(), dai(), Amount::from_atoms(2_500_000).unwrap(), 150),
    ];

    for (from, to, input, slippage_bps) in scenarios {
        let slippage = Slippage {
            tolerance_bps: slippage_bps,
        };
        let algo = select_best_algo(graph.tokens().len(), pools.len(), slippage);

        println!(
            "\nScenario: {:?} → {:?} | Input: {} | Slippage: {}bps | Algo: {:?}",
            from, to, input.atoms, slippage_bps, algo
        );

        let route = router.compute_route(
            Side::Buy,
            &graph,
            &from,
            &to,
            input,
            ExecutionParams {
                slippage,
                algo,
                max_hops: 4,
            },
        );

        assert!(route.is_some(), "No route found for {:?} → {:?}", from, to);
        let (_algo, route) = route.unwrap();
        validate_route(&route, from, to);
        println!(
            "Best route output: {} atoms | Steps: {}",
            route.output_amount.atoms,
            route.steps.len()
        );
    }
}
