//! Dijkstra strategy: always expands the frontier entry with the highest
//! cumulative amount, with global dominance pruning, and returns the first
//! route completed at the destination in this order.

use vstd::prelude::*;

use std::collections::HashMap;

use crate::amount::Amount;
use crate::bfs::{
    direct_edge_pending, lemma_direct_edge_in_neighbors, lemma_progress_after_pop,
    start_pending, state_budget, state_ok, to_state_pending, SearchState,
};
use crate::chain::{
    found_route_ok, has_direct_edge, lemma_chain_out_snoc, lemma_linked_snoc, lemma_pool_in_wf,
    lemma_spec_out_passable, lemma_steps_in_snoc,
};
use crate::graph::{lemma_touching_props, Graph};
use crate::measure::{lemma_pot_expand, lemma_pot_push, lemma_pot_remove, lemma_wpow_pos, pot,
    wpow};
use crate::types::{copy_vec, ExecutionParams, Route, Side, SwapStep, Token};

verus! {

broadcast use vstd::std_specs::hash::group_hash_axioms;

/// The hop budgets of the whole frontier.
pub(crate) open spec fn heap_budgets(q: Seq<SearchState>, m: int) -> Seq<nat> {
    q.map_values(|st: SearchState| state_budget(st, m))
}

/// Removes and returns a frontier entry carrying the highest amount; among
/// equals, the earliest inserted.
pub(crate) fn pop_best(queue: &mut Vec<SearchState>) -> (st: SearchState)
    requires
        old(queue)@.len() > 0,
    ensures
        exists|i: int|
            0 <= i < old(queue)@.len() && st == old(queue)@[i] && final(queue)@ == old(
                queue,
            )@.remove(i),
        forall|k: int|
            0 <= k < old(queue)@.len() ==> (#[trigger] old(queue)@[k]).2.atoms <= st.2.atoms,
{
    let n = queue.len();
    let mut best: usize = 0;
    let mut k: usize = 1;
    while k < n
        invariant
            n == queue@.len(),
            best < k <= n,
            n > 0,
            forall|j: int| 0 <= j < k ==> (#[trigger] queue@[j]).2.atoms <= queue@[
                best as int
            ].2.atoms,
        decreases n - k,
    {
        if queue[k].2.atoms > queue[best].2.atoms {
            best = k;
        }
        k += 1;
    }
    let st = queue.remove(best);
    proof {
        assert(st == old(queue)@[best as int] && final(queue)@ == old(queue)@.remove(
            best as int,
        ));
    }
    st
}

/// Greedily expands the partial route with the highest cumulative output
/// (equivalently, minimizes its negation), pruning an entry whose asset
/// was already expanded with at least its amount, and returns the first
/// route completed at `to` when popped.
pub fn dijkstra(
    side: Side,
    graph: &Graph,
    from: &Token,
    to: &Token,
    amount_in: Amount,
    params: ExecutionParams,
) -> (r: Option<Route>)
    requires
        graph.wf(),
        amount_in.wf(),
        params.max_hops >= 1,
    ensures
        found_route_ok(
            graph.pools@,
            *from,
            *to,
            amount_in.atoms as int,
            params.max_hops as int,
            r,
        ),
        *from != *to && has_direct_edge(graph.pools@, *from, *to) ==> r is Some,
{
    let ghost a0 = amount_in.atoms as int;
    let ghost m = params.max_hops as int;
    let ghost base = (graph.pools@.len() + 1) as nat;
    let mut heap: Vec<SearchState> = Vec::new();
    heap.push((*from, Vec::new(), amount_in));
    let mut visited: HashMap<u64, Amount> = HashMap::new();
    proof {
        assert(heap@[0].0 == *from && heap@[0].1@.len() == 0);
    }
    while heap.len() > 0
        invariant
            graph.wf(),
            amount_in.wf(),
            a0 == amount_in.atoms as int,
            m == params.max_hops as int,
            m >= 1,
            base == (graph.pools@.len() + 1) as nat,
            forall|k: int|
                0 <= k < heap@.len() ==> state_ok(graph.pools@, #[trigger] heap@[k], *from, a0)
                    && heap@[k].1@.len() <= m,
            *from != *to && has_direct_edge(graph.pools@, *from, *to) ==> to_state_pending(
                heap@,
                *to,
            ) || start_pending(heap@, *from, visited@),
        decreases pot(heap_budgets(heap@, m), base),
    {
        let ghost q0 = heap@;
        let st = pop_best(&mut heap);
        let ghost i0 = choose|i: int|
            0 <= i < q0.len() && st == q0[i] && heap@ == q0.remove(i);
        let ghost b_st = state_budget(st, m);
        proof {
            assert(heap_budgets(heap@, m) =~= heap_budgets(q0, m).remove(i0));
            lemma_pot_remove(heap_budgets(q0, m), base, i0);
            assert(heap_budgets(q0, m)[i0] == b_st);
            lemma_wpow_pos(base, b_st);
        }
        let ghost pot_popped = pot(heap_budgets(heap@, m), base);
        if st.0.0 == to.0 && st.1.len() > 0 {
            proof {
                assert(st.0 == *to);
            }
            return Some(Route { steps: st.1, output_amount: st.2 });
        }
        if st.1.len() >= params.max_hops {
            proof {
                if *from != *to && has_direct_edge(graph.pools@, *from, *to) {
                    lemma_progress_after_pop(q0, heap@, i0, *from, *to, visited@);
                }
            }
        } else {
            let dominated = match visited.get(&st.0.0) {
                Some(prev) => prev.atoms >= st.2.atoms,
                None => false,
            };
            if dominated {
                proof {
                    if *from != *to && has_direct_edge(graph.pools@, *from, *to) {
                        // a dominated entry's asset was expanded before, so
                        // it cannot be the pending start entry
                        assert(visited@.contains_key(st.0.0));
                        lemma_progress_after_pop(q0, heap@, i0, *from, *to, visited@);
                    }
                }
            } else {
                visited.insert(st.0.0, st.2);
                proof {
                    lemma_touching_props(graph.pools@, st.0);
                }
                let neigh = graph.neighbors(&st.0);
                proof {
                    if *from != *to && has_direct_edge(graph.pools@, *from, *to) {
                        if to_state_pending(q0, *to) {
                            let k = choose|k: int|
                                0 <= k < q0.len() && (#[trigger] q0[k]).0 == *to
                                    && q0[k].1@.len() >= 1;
                            assert(k != i0);
                            if k < i0 {
                                assert(heap@[k] == q0[k]);
                            } else {
                                assert(heap@[k - 1] == q0[k]);
                            }
                            assert(to_state_pending(heap@, *to));
                        } else if st.0 == *from {
                            // expanding the source: its direct edge to the
                            // destination is in the neighbor list
                            lemma_direct_edge_in_neighbors(graph.pools@, neigh@, st.0, *to);
                        } else {
                            let k = choose|k: int|
                                0 <= k < q0.len() && (#[trigger] q0[k]).0 == *from
                                    && q0[k].1@.len() == 0;
                            assert(k != i0);
                            if k < i0 {
                                assert(heap@[k] == q0[k]);
                            } else {
                                assert(heap@[k - 1] == q0[k]);
                            }
                            assert(st.0.0 != from.0);
                            assert(!visited@.contains_key(from.0));
                            assert(start_pending(heap@, *from, visited@));
                        }
                    }
                }
                let deg = neigh.len();
                let mut j: usize = 0;
                while j < deg
                    invariant
                        graph.wf(),
                        a0 == amount_in.atoms as int,
                        m == params.max_hops as int,
                        m >= 1,
                        base == (graph.pools@.len() + 1) as nat,
                        deg == neigh@.len(),
                        j <= deg,
                        deg <= base - 1,
                        forall|k: int|
                            0 <= k < neigh@.len() ==> graph.pools@.contains(
                                (#[trigger] neigh@[k]).1,
                            ) && neigh@[k].1.spec_other(st.0) == Some(neigh@[k].0),
                        state_ok(graph.pools@, st, *from, a0),
                        st.1@.len() < m,
                        b_st == state_budget(st, m),
                        b_st >= 1,
                        forall|k: int|
                            0 <= k < heap@.len() ==> state_ok(
                                graph.pools@,
                                #[trigger] heap@[k],
                                *from,
                                a0,
                            ) && heap@[k].1@.len() <= m,
                        pot(heap_budgets(heap@, m), base) <= pot_popped + j * wpow(
                            base,
                            (b_st - 1) as nat,
                        ),
                        *from != *to && has_direct_edge(graph.pools@, *from, *to)
                            ==> to_state_pending(heap@, *to) || direct_edge_pending(
                            neigh@,
                            j as int,
                            *to,
                            st.0,
                        ) || start_pending(heap@, *from, visited@),
                    decreases deg - j,
                {
                    let (next_token, pool) = neigh[j];
                    let ghost qb = heap@;
                    proof {
                        lemma_pool_in_wf(graph.pools@, pool);
                    }
                    match pool.get_output_amount(&st.0, st.2) {
                        Some(out) => {
                            let mut new_route = copy_vec(&st.1);
                            let step = SwapStep { from: st.0, to: next_token, pool };
                            new_route.push(step);
                            proof {
                                lemma_linked_snoc(st.1@, *from, st.0, step);
                                lemma_steps_in_snoc(st.1@, graph.pools@, step);
                                lemma_chain_out_snoc(st.1@, step, a0);
                            }
                            heap.push((next_token, new_route, out));
                            proof {
                                assert(forall|k: int|
                                    0 <= k < qb.len() ==> #[trigger] heap@[k] == qb[k]);
                                assert(heap_budgets(heap@, m) =~= heap_budgets(qb, m).push(
                                    (b_st - 1) as nat,
                                ));
                                lemma_pot_push(heap_budgets(qb, m), base, (b_st - 1) as nat);
                                assert((j + 1) * wpow(base, (b_st - 1) as nat) == j * wpow(
                                    base,
                                    (b_st - 1) as nat,
                                ) + wpow(base, (b_st - 1) as nat)) by (nonlinear_arith);
                                if *from != *to && has_direct_edge(graph.pools@, *from, *to) {
                                    if to_state_pending(qb, *to) {
                                        let k = choose|k: int|
                                            0 <= k < qb.len() && (#[trigger] qb[k]).0 == *to
                                                && qb[k].1@.len() >= 1;
                                        assert(heap@[k] == qb[k]);
                                        assert(to_state_pending(heap@, *to));
                                    } else if direct_edge_pending(neigh@, j as int, *to, st.0) {
                                        let jj = choose|jj: int|
                                            j <= jj < neigh@.len() && (#[trigger] neigh@[jj]).0
                                                == *to && neigh@[jj].1.passable_from(st.0);
                                        if jj == j {
                                            assert(heap@[heap@.len() - 1] == (
                                                next_token,
                                                new_route,
                                                out,
                                            ));
                                            assert(next_token == *to);
                                            assert(to_state_pending(heap@, *to));
                                        } else {
                                            assert(direct_edge_pending(
                                                neigh@,
                                                j + 1,
                                                *to,
                                                st.0,
                                            ));
                                        }
                                    } else {
                                        let k = choose|k: int|
                                            0 <= k < qb.len() && (#[trigger] qb[k]).0 == *from
                                                && qb[k].1@.len() == 0;
                                        assert(heap@[k] == qb[k]);
                                        assert(start_pending(heap@, *from, visited@));
                                    }
                                }
                            }
                        },
                        None => {
                            proof {
                                assert((j + 1) * wpow(base, (b_st - 1) as nat) >= j * wpow(
                                    base,
                                    (b_st - 1) as nat,
                                )) by (nonlinear_arith)
                                    requires
                                        wpow(base, (b_st - 1) as nat) >= 0,
                                        j >= 0,
                                ;
                                if direct_edge_pending(neigh@, j as int, *to, st.0) {
                                    let jj = choose|jj: int|
                                        j <= jj < neigh@.len() && (#[trigger] neigh@[jj]).0 == *to
                                            && neigh@[jj].1.passable_from(st.0);
                                    if jj == j {
                                        lemma_spec_out_passable(pool, st.0, st.2.atoms as int);
                                        assert(false);
                                    }
                                    assert(direct_edge_pending(neigh@, j + 1, *to, st.0));
                                }
                            }
                        },
                    }
                    j += 1;
                }
                proof {
                    lemma_pot_expand(base, (b_st - 1) as nat, deg as nat);
                    assert(((b_st - 1) as nat + 1) as nat == b_st);
                    assert(deg * wpow(base, (b_st - 1) as nat) < wpow(base, b_st));
                    assert(pot(heap_budgets(heap@, m), base) < pot(heap_budgets(q0, m), base));
                    if *from != *to && has_direct_edge(graph.pools@, *from, *to) {
                        if direct_edge_pending(neigh@, deg as int, *to, st.0) {
                            let jj = choose|jj: int|
                                deg <= jj < neigh@.len() && (#[trigger] neigh@[jj]).0 == *to
                                    && neigh@[jj].1.passable_from(st.0);
                            assert(false);
                        }
                    }
                }
            }
        }
    }
    proof {
        if *from != *to && has_direct_edge(graph.pools@, *from, *to) {
            if to_state_pending(heap@, *to) {
                let k = choose|k: int|
                    0 <= k < heap@.len() && (#[trigger] heap@[k]).0 == *to && heap@[k].1@.len()
                        >= 1;
                assert(false);
            } else {
                assert(start_pending(heap@, *from, visited@));
                let k = choose|k: int|
                    0 <= k < heap@.len() && (#[trigger] heap@[k]).0 == *from
                        && heap@[k].1@.len() == 0;
                assert(false);
            }
        }
    }
    None
}

} // verus!
