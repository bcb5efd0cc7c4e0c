//! Best-route search over a graph of constant-product liquidity pools.
//!
//! A pool exchanges one asset for another at a price given by the
//! constant-product formula, after a fee in basis points. A graph of pools
//! is queried by five interchangeable strategies (direct-best,
//! breadth-first, depth-first, Dijkstra and A*), by an arbitrage-cycle
//! search, and by a dispatcher that runs one strategy or races all five.

pub mod algo_selector;
pub mod amount;
pub mod astar;
pub mod best_direct;
pub mod bfs;
pub mod chain;
pub mod circular;
pub mod dfs;
pub mod dijkstra;
pub mod graph;
pub mod measure;
pub mod route_engine;
pub mod routing;
pub mod types;
