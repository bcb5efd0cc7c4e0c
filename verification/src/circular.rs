//! Arbitrage-cycle search: explores like Dijkstra but succeeds on
//! returning to the starting asset with a non-empty path, and keeps the
//! best cycle by output. Whether the best cycle is profitable (output
//! above input) is the caller's comparison, not the search's.

use vstd::prelude::*;

use crate::amount::Amount;
use crate::bfs::{
    direct_edge_pending, lemma_direct_edge_in_neighbors, state_budget, state_ok,
    to_state_pending, SearchState,
};
use crate::chain::{
    found_route_ok, has_direct_edge, lemma_chain_out_snoc, lemma_linked_snoc, lemma_pool_in_wf,
    lemma_spec_out_passable, lemma_steps_in_snoc, valid_route,
};
use crate::dijkstra::{heap_budgets, pop_best};
use crate::graph::{lemma_touching_complete, lemma_touching_props, Graph};
use crate::measure::{lemma_pot_expand, lemma_pot_push, lemma_pot_remove, lemma_wpow_pos, pot,
    wpow};
use crate::types::{copy_vec, ExecutionParams, Pool, Route, Side, SwapStep, Token};

verus! {

/// Whether some step of the route already arrives at asset `t`.
fn route_visits(route: &Vec<SwapStep>, t: &Token) -> (r: bool)
    ensures
        r == exists|i: int| 0 <= i < route@.len() && (#[trigger] route@[i]).to == *t,
{
    let n = route.len();
    let mut i: usize = 0;
    while i < n
        invariant
            n == route@.len(),
            i <= n,
            forall|k: int| 0 <= k < i ==> (#[trigger] route@[k]).to != *t,
        decreases n - i,
    {
        if route[i].to.0 == t.0 {
            proof {
                assert(route@[i as int].to == *t);
            }
            return true;
        }
        i += 1;
    }
    false
}

/// Whether some pool of the list touches `from` and holds reserve on both
/// sides: crossing it and coming straight back is then a two-hop cycle.
pub open spec fn has_round_trip_edge(pools: Seq<Pool>, from: Token) -> bool {
    exists|i: int|
        0 <= i < pools.len() && (#[trigger] pools[i]).touches(from) && pools[i].reserve0.atoms
            > 0 && pools[i].reserve1.atoms > 0
}

/// The start entry is still on the frontier.
spec fn start_state_pending(q: Seq<SearchState>, from: Token) -> bool {
    exists|k: int| 0 <= k < q.len() && (#[trigger] q[k]).0 == from && q[k].1@.len() == 0
}

/// Some frontier entry below the hop bound still has a passable direct
/// edge back to the source.
spec fn return_edge_pending(pools: Seq<Pool>, q: Seq<SearchState>, from: Token, m: int) -> bool {
    exists|k: int|
        0 <= k < q.len() && 1 <= (#[trigger] q[k]).1@.len() < m && has_direct_edge(
            pools,
            q[k].0,
            from,
        )
}

/// Some neighbor entry at or after position `j` crosses a pool with
/// reserve on both sides.
spec fn round_edge_pending(neigh: Seq<(Token, Pool)>, j: int) -> bool {
    exists|jj: int|
        j <= jj < neigh.len() && (#[trigger] neigh[jj]).1.reserve0.atoms > 0
            && neigh[jj].1.reserve1.atoms > 0
}

/// The cycle search keeps making progress toward some recorded cycle: a
/// best cycle is already recorded, a completed cycle waits on the
/// frontier, an entry one edge away from the source waits below the hop
/// bound, or the start entry still waits.
spec fn cycle_progress(
    pools: Seq<Pool>,
    q: Seq<SearchState>,
    best: Option<Route>,
    from: Token,
    m: int,
) -> bool {
    ||| best is Some
    ||| to_state_pending(q, from)
    ||| return_edge_pending(pools, q, from, m)
    ||| start_state_pending(q, from)
}

/// Searches for the cycle with the highest output that starts and ends at
/// `from`: intermediate assets are never revisited, a completed cycle is
/// not extended further, and among all completed cycles the one with the
/// highest output is returned, profitable or not. With at least two hops
/// allowed, a pool with reserve on both sides touching `from` guarantees
/// a cycle.
pub fn circular(
    side: Side,
    graph: &Graph,
    from: &Token,
    to: &Token,
    amount_in: Amount,
    params: ExecutionParams,
) -> (r: Option<Route>)
    requires
        graph.wf(),
        amount_in.wf(),
        params.max_hops >= 1,
    ensures
        found_route_ok(
            graph.pools@,
            *from,
            *from,
            amount_in.atoms as int,
            params.max_hops as int,
            r,
        ),
        params.max_hops >= 2 && has_round_trip_edge(graph.pools@, *from) ==> r is Some,
{
    let ghost a0 = amount_in.atoms as int;
    let ghost m = params.max_hops as int;
    let ghost base = (graph.pools@.len() + 1) as nat;
    let mut heap: Vec<SearchState> = Vec::new();
    heap.push((*from, Vec::new(), amount_in));
    let mut best_route: Option<Route> = None;
    proof {
        assert(heap@[0].0 == *from && heap@[0].1@.len() == 0);
        assert(start_state_pending(heap@, *from));
    }
    while heap.len() > 0
        invariant
            graph.wf(),
            amount_in.wf(),
            a0 == amount_in.atoms as int,
            m == params.max_hops as int,
            m >= 1,
            base == (graph.pools@.len() + 1) as nat,
            forall|k: int|
                0 <= k < heap@.len() ==> state_ok(graph.pools@, #[trigger] heap@[k], *from, a0)
                    && heap@[k].1@.len() <= m,
            best_route matches Some(rt) ==> valid_route(graph.pools@, rt, *from, *from, a0)
                && rt.steps@.len() <= m,
            m >= 2 && has_round_trip_edge(graph.pools@, *from) ==> cycle_progress(
                graph.pools@,
                heap@,
                best_route,
                *from,
                m,
            ),
        decreases pot(heap_budgets(heap@, m), base),
    {
        let ghost q0 = heap@;
        let st = pop_best(&mut heap);
        let ghost i0 = choose|i: int|
            0 <= i < q0.len() && st == q0[i] && heap@ == q0.remove(i);
        let ghost b_st = state_budget(st, m);
        proof {
            assert(heap_budgets(heap@, m) =~= heap_budgets(q0, m).remove(i0));
            lemma_pot_remove(heap_budgets(q0, m), base, i0);
            assert(heap_budgets(q0, m)[i0] == b_st);
            lemma_wpow_pos(base, b_st);
        }
        let ghost pot_popped = pot(heap_budgets(heap@, m), base);
        if st.0.0 == from.0 && st.1.len() > 0 {
            // a completed cycle: record it if best so far, extend nothing
            proof {
                assert(st.0 == *from);
            }
            let better = match &best_route {
                None => true,
                Some(rt) => st.2.atoms > rt.output_amount.atoms,
            };
            if better {
                best_route = Some(Route { steps: st.1, output_amount: st.2 });
            }
        } else if st.1.len() >= params.max_hops {
            proof {
                if m >= 2 && has_round_trip_edge(graph.pools@, *from) {
                    shift_progress(graph.pools@, q0, heap@, i0, best_route, *from, m);
                }
            }
        } else {
            proof {
                lemma_touching_props(graph.pools@, st.0);
            }
            let neigh = graph.neighbors(&st.0);
            proof {
                if m >= 2 && has_round_trip_edge(graph.pools@, *from) {
                    if best_route is Some {
                    } else if to_state_pending(q0, *from) {
                        // the popped entry is not a completed cycle, so the
                        // waiting one is elsewhere
                        let k = choose|k: int|
                            0 <= k < q0.len() && (#[trigger] q0[k]).0 == *from
                                && q0[k].1@.len() >= 1;
                        assert(k != i0);
                        if k < i0 {
                            assert(heap@[k] == q0[k]);
                        } else {
                            assert(heap@[k - 1] == q0[k]);
                        }
                        assert(to_state_pending(heap@, *from));
                    } else if st.0 == *from {
                        // expanding the start entry: some pool with reserve
                        // on both sides is among its neighbors
                        let w = choose|w: int|
                            0 <= w < graph.pools@.len() && (#[trigger] graph.pools@[w]).touches(
                                *from,
                            ) && graph.pools@[w].reserve0.atoms > 0
                                && graph.pools@[w].reserve1.atoms > 0;
                        let p = graph.pools@[w];
                        assert(graph.pools@.contains(p));
                        lemma_touching_complete(graph.pools@, *from, p);
                        let idx = choose|idx: int|
                            0 <= idx < crate::graph::touching(graph.pools@, *from).len()
                                && crate::graph::touching(graph.pools@, *from)[idx] == p;
                        assert(neigh@[idx].1 == p);
                        assert(round_edge_pending(neigh@, 0));
                    } else if return_edge_pending(graph.pools@, q0, *from, m) {
                        let k = choose|k: int|
                            0 <= k < q0.len() && 1 <= (#[trigger] q0[k]).1@.len() < m
                                && has_direct_edge(graph.pools@, q0[k].0, *from);
                        if k == i0 {
                            // the popped entry itself can cross back to the
                            // source
                            lemma_direct_edge_in_neighbors(graph.pools@, neigh@, st.0, *from);
                        } else {
                            if k < i0 {
                                assert(heap@[k] == q0[k]);
                            } else {
                                assert(heap@[k - 1] == q0[k]);
                            }
                            assert(return_edge_pending(graph.pools@, heap@, *from, m));
                        }
                    } else {
                        let k = choose|k: int|
                            0 <= k < q0.len() && (#[trigger] q0[k]).0 == *from
                                && q0[k].1@.len() == 0;
                        assert(k != i0);
                        if k < i0 {
                            assert(heap@[k] == q0[k]);
                        } else {
                            assert(heap@[k - 1] == q0[k]);
                        }
                        assert(start_state_pending(heap@, *from));
                    }
                }
            }
            let deg = neigh.len();
            let mut j: usize = 0;
            while j < deg
                invariant
                    graph.wf(),
                    a0 == amount_in.atoms as int,
                    m == params.max_hops as int,
                    m >= 1,
                    base == (graph.pools@.len() + 1) as nat,
                    deg == neigh@.len(),
                    j <= deg,
                    deg <= base - 1,
                    forall|k: int|
                        0 <= k < neigh@.len() ==> graph.pools@.contains(
                            (#[trigger] neigh@[k]).1,
                        ) && neigh@[k].1.spec_other(st.0) == Some(neigh@[k].0),
                    state_ok(graph.pools@, st, *from, a0),
                    st.1@.len() < m,
                    b_st == state_budget(st, m),
                    b_st >= 1,
                    forall|k: int|
                        0 <= k < heap@.len() ==> state_ok(
                            graph.pools@,
                            #[trigger] heap@[k],
                            *from,
                            a0,
                        ) && heap@[k].1@.len() <= m,
                    best_route matches Some(rt) ==> valid_route(
                        graph.pools@,
                        rt,
                        *from,
                        *from,
                        a0,
                    ) && rt.steps@.len() <= m,
                    pot(heap_budgets(heap@, m), base) <= pot_popped + j * wpow(
                        base,
                        (b_st - 1) as nat,
                    ),
                    m >= 2 && has_round_trip_edge(graph.pools@, *from) ==> (cycle_progress(
                        graph.pools@,
                        heap@,
                        best_route,
                        *from,
                        m,
                    ) || (round_edge_pending(neigh@, j as int) && st.0 == *from
                        && st.1@.len() == 0) || direct_edge_pending(
                        neigh@,
                        j as int,
                        *from,
                        st.0,
                    )),
                decreases deg - j,
            {
                let (next_token, pool) = neigh[j];
                let ghost qb = heap@;
                let revisit = route_visits(&st.1, &next_token);
                if !(revisit && next_token.0 != from.0) {
                    proof {
                        lemma_pool_in_wf(graph.pools@, pool);
                    }
                    match pool.get_output_amount(&st.0, st.2) {
                        Some(out) => {
                            let mut new_route = copy_vec(&st.1);
                            let step = SwapStep { from: st.0, to: next_token, pool };
                            new_route.push(step);
                            proof {
                                lemma_linked_snoc(st.1@, *from, st.0, step);
                                lemma_steps_in_snoc(st.1@, graph.pools@, step);
                                lemma_chain_out_snoc(st.1@, step, a0);
                            }
                            heap.push((next_token, new_route, out));
                            proof {
                                assert(forall|k: int|
                                    0 <= k < qb.len() ==> #[trigger] heap@[k] == qb[k]);
                                assert(heap_budgets(heap@, m) =~= heap_budgets(qb, m).push(
                                    (b_st - 1) as nat,
                                ));
                                lemma_pot_push(heap_budgets(qb, m), base, (b_st - 1) as nat);
                                assert((j + 1) * wpow(base, (b_st - 1) as nat) == j * wpow(
                                    base,
                                    (b_st - 1) as nat,
                                ) + wpow(base, (b_st - 1) as nat)) by (nonlinear_arith);
                                if m >= 2 && has_round_trip_edge(graph.pools@, *from) {
                                    if cycle_progress(graph.pools@, qb, best_route, *from, m) {
                                        keep_progress(
                                            graph.pools@,
                                            qb,
                                            heap@,
                                            best_route,
                                            *from,
                                            m,
                                        );
                                    }
                                    if round_edge_pending(neigh@, j as int) && st.0 == *from
                                        && st.1@.len() == 0 {
                                        let jj = choose|jj: int|
                                            j <= jj < neigh@.len() && (#[trigger] neigh@[jj
                                            ]).1.reserve0.atoms > 0 && neigh@[
                                                jj
                                            ].1.reserve1.atoms > 0;
                                        if jj == j {
                                            // the pushed entry is one hop out
                                            // and can cross the same pool back
                                            assert(heap@[heap@.len() - 1] == (
                                                next_token,
                                                new_route,
                                                out,
                                            ));
                                            assert(pool.spec_other(next_token) == Some(
                                                st.0,
                                            ));
                                            assert(pool.passable_from(next_token));
                                            let wdx = choose|wdx: int|
                                                0 <= wdx < graph.pools@.len()
                                                    && graph.pools@[wdx] == pool;
                                            assert(graph.pools@[wdx].spec_other(next_token)
                                                == Some(*from));
                                            assert(has_direct_edge(
                                                graph.pools@,
                                                next_token,
                                                *from,
                                            ));
                                            assert(new_route@.len() == 1);
                                            assert(return_edge_pending(
                                                graph.pools@,
                                                heap@,
                                                *from,
                                                m,
                                            ));
                                        } else {
                                            assert(round_edge_pending(neigh@, j + 1));
                                        }
                                    }
                                    if direct_edge_pending(neigh@, j as int, *from, st.0) {
                                        let jj = choose|jj: int|
                                            j <= jj < neigh@.len() && (#[trigger] neigh@[jj]).0
                                                == *from && neigh@[jj].1.passable_from(st.0);
                                        if jj == j {
                                            assert(heap@[heap@.len() - 1] == (
                                                next_token,
                                                new_route,
                                                out,
                                            ));
                                            assert(next_token == *from);
                                            assert(to_state_pending(heap@, *from));
                                        } else {
                                            assert(direct_edge_pending(
                                                neigh@,
                                                j + 1,
                                                *from,
                                                st.0,
                                            ));
                                        }
                                    }
                                }
                            }
                        },
                        None => {
                            proof {
                                if m >= 2 && has_round_trip_edge(graph.pools@, *from) {
                                    if round_edge_pending(neigh@, j as int) && st.0 == *from
                                        && st.1@.len() == 0 {
                                        let jj = choose|jj: int|
                                            j <= jj < neigh@.len() && (#[trigger] neigh@[jj
                                            ]).1.reserve0.atoms > 0 && neigh@[
                                                jj
                                            ].1.reserve1.atoms > 0;
                                        if jj == j {
                                            lemma_spec_out_passable(
                                                pool,
                                                st.0,
                                                st.2.atoms as int,
                                            );
                                            assert(false);
                                        }
                                        assert(round_edge_pending(neigh@, j + 1));
                                    }
                                    if direct_edge_pending(neigh@, j as int, *from, st.0) {
                                        let jj = choose|jj: int|
                                            j <= jj < neigh@.len() && (#[trigger] neigh@[jj]).0
                                                == *from && neigh@[jj].1.passable_from(st.0);
                                        if jj == j {
                                            lemma_spec_out_passable(
                                                pool,
                                                st.0,
                                                st.2.atoms as int,
                                            );
                                            assert(false);
                                        }
                                        assert(direct_edge_pending(neigh@, j + 1, *from, st.0));
                                    }
                                }
                            }
                        },
                    }
                } else {
                    proof {
                        if m >= 2 && has_round_trip_edge(graph.pools@, *from) {
                            if round_edge_pending(neigh@, j as int) && st.0 == *from
                                && st.1@.len() == 0 {
                                // the start entry's route is empty, so
                                // nothing is ever revisited from it
                                assert(false);
                            }
                            if direct_edge_pending(neigh@, j as int, *from, st.0) {
                                let jj = choose|jj: int|
                                    j <= jj < neigh@.len() && (#[trigger] neigh@[jj]).0 == *from
                                        && neigh@[jj].1.passable_from(st.0);
                                if jj == j {
                                    // an edge back to the source is never
                                    // skipped
                                    assert(next_token == *from);
                                    assert(false);
                                }
                                assert(direct_edge_pending(neigh@, j + 1, *from, st.0));
                            }
                        }
                    }
                }
                proof {
                    assert((j + 1) * wpow(base, (b_st - 1) as nat) >= j * wpow(
                        base,
                        (b_st - 1) as nat,
                    )) by (nonlinear_arith)
                        requires
                            wpow(base, (b_st - 1) as nat) >= 0,
                            j >= 0,
                    ;
                }
                j += 1;
            }
            proof {
                lemma_pot_expand(base, (b_st - 1) as nat, deg as nat);
                assert(((b_st - 1) as nat + 1) as nat == b_st);
                assert(deg * wpow(base, (b_st - 1) as nat) < wpow(base, b_st));
                assert(pot(heap_budgets(heap@, m), base) < pot(heap_budgets(q0, m), base));
                if m >= 2 && has_round_trip_edge(graph.pools@, *from) {
                    if round_edge_pending(neigh@, deg as int) {
                        let jj = choose|jj: int|
                            deg <= jj < neigh@.len() && (#[trigger] neigh@[jj]).1.reserve0.atoms
                                > 0 && neigh@[jj].1.reserve1.atoms > 0;
                        assert(false);
                    }
                    if direct_edge_pending(neigh@, deg as int, *from, st.0) {
                        let jj = choose|jj: int|
                            deg <= jj < neigh@.len() && (#[trigger] neigh@[jj]).0 == *from
                                && neigh@[jj].1.passable_from(st.0);
                        assert(false);
                    }
                }
            }
        }
    }
    proof {
        if m >= 2 && has_round_trip_edge(graph.pools@, *from) {
            if to_state_pending(heap@, *from) {
                let k = choose|k: int|
                    0 <= k < heap@.len() && (#[trigger] heap@[k]).0 == *from && heap@[k].1@.len()
                        >= 1;
                assert(false);
            }
            if return_edge_pending(graph.pools@, heap@, *from, m) {
                let k = choose|k: int|
                    0 <= k < heap@.len() && 1 <= (#[trigger] heap@[k]).1@.len() < m
                        && has_direct_edge(graph.pools@, heap@[k].0, *from);
                assert(false);
            }
            if start_state_pending(heap@, *from) {
                let k = choose|k: int|
                    0 <= k < heap@.len() && (#[trigger] heap@[k]).0 == *from && heap@[k].1@.len()
                        == 0;
                assert(false);
            }
            assert(best_route is Some);
        }
    }
    best_route
}

/// Progress survives popping an entry that is neither a completed cycle
/// nor the start entry nor an entry with a return edge.
proof fn shift_progress(
    pools: Seq<Pool>,
    q0: Seq<SearchState>,
    q1: Seq<SearchState>,
    i: int,
    best: Option<Route>,
    from: Token,
    m: int,
)
    requires
        0 <= i < q0.len(),
        q1 == q0.remove(i),
        cycle_progress(pools, q0, best, from, m),
        !(q0[i].0 == from && q0[i].1@.len() >= 1),
        !(q0[i].0 == from && q0[i].1@.len() == 0),
        !(1 <= q0[i].1@.len() < m),
    ensures
        cycle_progress(pools, q1, best, from, m),
{
    if best is Some {
    } else if to_state_pending(q0, from) {
        let k = choose|k: int|
            0 <= k < q0.len() && (#[trigger] q0[k]).0 == from && q0[k].1@.len() >= 1;
        assert(k != i);
        if k < i {
            assert(q1[k] == q0[k]);
        } else {
            assert(q1[k - 1] == q0[k]);
        }
        assert(to_state_pending(q1, from));
    } else if return_edge_pending(pools, q0, from, m) {
        let k = choose|k: int|
            0 <= k < q0.len() && 1 <= (#[trigger] q0[k]).1@.len() < m && has_direct_edge(
                pools,
                q0[k].0,
                from,
            );
        assert(k != i);
        if k < i {
            assert(q1[k] == q0[k]);
        } else {
            assert(q1[k - 1] == q0[k]);
        }
        assert(return_edge_pending(pools, q1, from, m));
    } else {
        let k = choose|k: int|
            0 <= k < q0.len() && (#[trigger] q0[k]).0 == from && q0[k].1@.len() == 0;
        assert(k != i);
        if k < i {
            assert(q1[k] == q0[k]);
        } else {
            assert(q1[k - 1] == q0[k]);
        }
        assert(start_state_pending(q1, from));
    }
}

/// Progress survives appending an entry to the frontier.
proof fn keep_progress(
    pools: Seq<Pool>,
    q0: Seq<SearchState>,
    q1: Seq<SearchState>,
    best: Option<Route>,
    from: Token,
    m: int,
)
    requires
        q0.len() <= q1.len(),
        forall|k: int| 0 <= k < q0.len() ==> #[trigger] q1[k] == q0[k],
        cycle_progress(pools, q0, best, from, m),
    ensures
        cycle_progress(pools, q1, best, from, m),
{
    if best is Some {
    } else if to_state_pending(q0, from) {
        let k = choose|k: int|
            0 <= k < q0.len() && (#[trigger] q0[k]).0 == from && q0[k].1@.len() >= 1;
        assert(q1[k] == q0[k]);
        assert(to_state_pending(q1, from));
    } else if return_edge_pending(pools, q0, from, m) {
        let k = choose|k: int|
            0 <= k < q0.len() && 1 <= (#[trigger] q0[k]).1@.len() < m && has_direct_edge(
                pools,
                q0[k].0,
                from,
            );
        assert(q1[k] == q0[k]);
        assert(return_edge_pending(pools, q1, from, m));
    } else {
        let k = choose|k: int|
            0 <= k < q0.len() && (#[trigger] q0[k]).0 == from && q0[k].1@.len() == 0;
        assert(q1[k] == q0[k]);
        assert(start_state_pending(q1, from));
    }
}

} // verus!
