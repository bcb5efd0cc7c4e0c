//! Breadth-first strategy: explores the graph level by level and returns
//! the first completed route under its dominance-pruning policy.

use vstd::prelude::*;

use std::collections::HashMap;
use std::collections::VecDeque;

use crate::amount::Amount;
use crate::chain::{
    chain_out, found_route_ok, has_direct_edge, lemma_chain_out_snoc, lemma_linked_snoc,
    lemma_pool_in_wf, lemma_spec_out_passable, lemma_steps_in_snoc, linked, steps_in,
};
use crate::graph::{lemma_touching_complete, lemma_touching_props, touching, Graph};
use crate::measure::{lemma_pot_expand, lemma_pot_push, lemma_pot_remove, lemma_wpow_pos, pot,
    wpow};
use crate::types::{copy_vec, ExecutionParams, Pool, Route, Side, SwapStep, Token};

verus! {

broadcast use vstd::std_specs::hash::group_hash_axioms;

/// A frontier entry: the asset reached, the steps taken, and the exact
/// amount carried.
pub(crate) type SearchState = (Token, Vec<SwapStep>, Amount);

/// A frontier entry is a partial route: a linked chain from the query's
/// source to the entry's asset whose exact payout is the carried amount,
/// through pools of the graph.
pub(crate) open spec fn state_ok(
    pools: Seq<Pool>,
    st: SearchState,
    from: Token,
    a0: int,
) -> bool {
    &&& st.2.wf()
    &&& linked(st.1@, from, st.0)
    &&& st.1@.len() == 0 ==> st.0 == from
    &&& steps_in(st.1@, pools)
    &&& chain_out(st.1@, a0) == Some(st.2.atoms as int)
}

/// Remaining hop budget of a frontier entry under hop bound `m`.
pub(crate) open spec fn state_budget(st: SearchState, m: int) -> nat {
    if st.1@.len() <= m {
        (m - st.1@.len()) as nat
    } else {
        0
    }
}

/// The hop budgets of a whole frontier.
pub(crate) open spec fn frontier_budgets(q: Seq<SearchState>, m: int) -> Seq<nat> {
    q.map_values(|st: SearchState| state_budget(st, m))
}

/// Some frontier entry has completed a non-empty route at `to`; such an
/// entry returns as soon as it is popped.
pub(crate) open spec fn to_state_pending(q: Seq<SearchState>, to: Token) -> bool {
    exists|k: int| 0 <= k < q.len() && (#[trigger] q[k]).0 == to && q[k].1@.len() >= 1
}

/// The start entry is still on the frontier with its asset not yet
/// expanded, so its whole neighborhood will still be explored.
pub(crate) open spec fn start_pending(
    q: Seq<SearchState>,
    from: Token,
    visited: Map<u64, Amount>,
) -> bool {
    &&& exists|k: int| 0 <= k < q.len() && (#[trigger] q[k]).0 == from && q[k].1@.len() == 0
    &&& !visited.contains_key(from.0)
}

/// Some neighbor entry at or after position `j` still crosses directly to
/// `to`, with reserve on the near side.
pub(crate) open spec fn direct_edge_pending(
    neigh: Seq<(Token, Pool)>,
    j: int,
    to: Token,
    cur: Token,
) -> bool {
    exists|jj: int|
        j <= jj < neigh.len() && (#[trigger] neigh[jj]).0 == to && neigh[jj].1.passable_from(cur)
}

/// A direct edge of the pool list from `cur` stands somewhere in the
/// neighbor list of `cur`.
pub(crate) proof fn lemma_direct_edge_in_neighbors(
    pools: Seq<Pool>,
    neigh: Seq<(Token, Pool)>,
    cur: Token,
    to: Token,
)
    requires
        has_direct_edge(pools, cur, to),
        neigh.len() == touching(pools, cur).len(),
        forall|k: int|
            0 <= k < neigh.len() ==> {
                let p = touching(pools, cur)[k];
                #[trigger] neigh[k] == (p.spec_other(cur)->Some_0, p)
            },
    ensures
        direct_edge_pending(neigh, 0, to, cur),
{
    let p = choose|i: int|
        0 <= i < pools.len() && (#[trigger] pools[i]).spec_other(cur) == Some(to)
            && pools[i].passable_from(cur);
    let pl = pools[p];
    assert(pools.contains(pl));
    lemma_touching_complete(pools, cur, pl);
    let jj = choose|jj: int|
        0 <= jj < touching(pools, cur).len() && touching(pools, cur)[jj] == pl;
    assert(neigh[jj] == (pl.spec_other(cur)->Some_0, pl));
    assert(neigh[jj].0 == to && neigh[jj].1.passable_from(cur));
}

/// Progress survives popping the front entry without expanding it, as
/// long as the popped entry is neither a pending completion nor the
/// pending start entry.
pub(crate) proof fn lemma_progress_after_skip(
    q0: Seq<SearchState>,
    q1: Seq<SearchState>,
    from: Token,
    to: Token,
    v: Map<u64, Amount>,
)
    requires
        q0.len() > 0,
        q1 == q0.subrange(1, q0.len() as int),
        to_state_pending(q0, to) || start_pending(q0, from, v),
        q0[0].0 == to ==> q0[0].1@.len() == 0,
        start_pending(q0, from, v) ==> !(q0[0].0 == from && q0[0].1@.len() == 0),
    ensures
        to_state_pending(q1, to) || start_pending(q1, from, v),
{
    if to_state_pending(q0, to) {
        let k = choose|k: int| 0 <= k < q0.len() && (#[trigger] q0[k]).0 == to && q0[k].1@.len()
            >= 1;
        assert(k >= 1);
        assert(q1[k - 1] == q0[k]);
        assert(to_state_pending(q1, to));
    } else {
        let k = choose|k: int| 0 <= k < q0.len() && (#[trigger] q0[k]).0 == from
            && q0[k].1@.len() == 0;
        assert(k >= 1);
        assert(q1[k - 1] == q0[k]);
        assert(start_pending(q1, from, v));
    }
}

/// Progress survives popping any entry without expanding it, as long as
/// the popped entry is neither a pending completion nor the pending start
/// entry.
pub(crate) proof fn lemma_progress_after_pop(
    q0: Seq<SearchState>,
    q1: Seq<SearchState>,
    i: int,
    from: Token,
    to: Token,
    v: Map<u64, Amount>,
)
    requires
        0 <= i < q0.len(),
        q1 == q0.remove(i),
        to_state_pending(q0, to) || start_pending(q0, from, v),
        q0[i].0 == to ==> q0[i].1@.len() == 0,
        start_pending(q0, from, v) ==> !(q0[i].0 == from && q0[i].1@.len() == 0),
    ensures
        to_state_pending(q1, to) || start_pending(q1, from, v),
{
    if to_state_pending(q0, to) {
        let k = choose|k: int| 0 <= k < q0.len() && (#[trigger] q0[k]).0 == to && q0[k].1@.len()
            >= 1;
        assert(k != i);
        if k < i {
            assert(q1[k] == q0[k]);
        } else {
            assert(q1[k - 1] == q0[k]);
        }
        assert(to_state_pending(q1, to));
    } else {
        let k = choose|k: int| 0 <= k < q0.len() && (#[trigger] q0[k]).0 == from
            && q0[k].1@.len() == 0;
        assert(k != i);
        if k < i {
            assert(q1[k] == q0[k]);
        } else {
            assert(q1[k - 1] == q0[k]);
        }
        assert(start_pending(q1, from, v));
    }
}

/// Explores the graph level by level, pruning an entry when its asset was
/// already expanded with at least the entry's amount, and returns the
/// first route completed at `to` under this policy.
pub fn bfs(
    side: Side,
    graph: &Graph,
    from: &Token,
    to: &Token,
    amount_in: Amount,
    params: ExecutionParams,
) -> (r: Option<Route>)
    requires
        graph.wf(),
        amount_in.wf(),
        params.max_hops >= 1,
    ensures
        found_route_ok(
            graph.pools@,
            *from,
            *to,
            amount_in.atoms as int,
            params.max_hops as int,
            r,
        ),
        *from != *to && has_direct_edge(graph.pools@, *from, *to) ==> r is Some,
{
    let ghost a0 = amount_in.atoms as int;
    let ghost m = params.max_hops as int;
    let ghost base = (graph.pools@.len() + 1) as nat;
    let mut queue: VecDeque<SearchState> = VecDeque::new();
    queue.push_back((*from, Vec::new(), amount_in));
    let mut visited: HashMap<u64, Amount> = HashMap::new();
    proof {
        assert(queue@[0].0 == *from && queue@[0].1@.len() == 0);
    }
    while queue.len() > 0
        invariant
            graph.wf(),
            amount_in.wf(),
            a0 == amount_in.atoms as int,
            m == params.max_hops as int,
            m >= 1,
            base == (graph.pools@.len() + 1) as nat,
            forall|k: int|
                0 <= k < queue@.len() ==> state_ok(graph.pools@, #[trigger] queue@[k], *from, a0)
                    && queue@[k].1@.len() <= m,
            *from != *to && has_direct_edge(graph.pools@, *from, *to) ==> to_state_pending(
                queue@,
                *to,
            ) || start_pending(queue@, *from, visited@),
        decreases pot(frontier_budgets(queue@, m), base),
    {
        let ghost q0 = queue@;
        let ghost v_head = visited@;
        let st = queue.pop_front().unwrap();
        let ghost b_st = state_budget(st, m);
        proof {
            assert(frontier_budgets(queue@, m) =~= frontier_budgets(q0, m).remove(0));
            lemma_pot_remove(frontier_budgets(q0, m), base, 0);
            assert(frontier_budgets(q0, m)[0] == b_st);
            lemma_wpow_pos(base, b_st);
        }
        let ghost pot_popped = pot(frontier_budgets(queue@, m), base);
        if st.0.0 == to.0 && st.1.len() > 0 {
            proof {
                assert(st.0 == *to);
            }
            return Some(Route { steps: st.1, output_amount: st.2 });
        }
        if st.1.len() >= params.max_hops {
            proof {
                if *from != *to && has_direct_edge(graph.pools@, *from, *to) {
                    lemma_progress_after_skip(q0, queue@, *from, *to, visited@);
                }
            }
        } else {
            let dominated = match visited.get(&st.0.0) {
                Some(seen) => seen.atoms >= st.2.atoms,
                None => false,
            };
            if dominated {
                proof {
                    if *from != *to && has_direct_edge(graph.pools@, *from, *to) {
                        // a dominated entry's asset was expanded before, so
                        // it cannot be the pending start entry
                        assert(visited@.contains_key(st.0.0));
                        lemma_progress_after_skip(q0, queue@, *from, *to, visited@);
                    }
                }
            } else {
                visited.insert(st.0.0, st.2);
                proof {
                    lemma_touching_props(graph.pools@, st.0);
                }
                let neigh = graph.neighbors(&st.0);
                proof {
                    if *from != *to && has_direct_edge(graph.pools@, *from, *to) {
                        if to_state_pending(q0, *to) {
                            let k = choose|k: int|
                                0 <= k < q0.len() && (#[trigger] q0[k]).0 == *to
                                    && q0[k].1@.len() >= 1;
                            assert(k >= 1);
                            assert(queue@[k - 1] == q0[k]);
                            assert(to_state_pending(queue@, *to));
                        } else if st.0 == *from {
                            // expanding the source: its direct edge to the
                            // destination is in the neighbor list
                            lemma_direct_edge_in_neighbors(graph.pools@, neigh@, st.0, *to);
                        } else {
                            assert(start_pending(q0, *from, v_head));
                            let k = choose|k: int|
                                0 <= k < q0.len() && (#[trigger] q0[k]).0 == *from
                                    && q0[k].1@.len() == 0;
                            assert(k >= 1);
                            assert(queue@[k - 1] == q0[k]);
                            assert(st.0.0 != from.0);
                            assert(!visited@.contains_key(from.0));
                            assert(start_pending(queue@, *from, visited@));
                        }
                    }
                }
                let deg = neigh.len();
                let mut j: usize = 0;
                while j < deg
                    invariant
                        graph.wf(),
                        a0 == amount_in.atoms as int,
                        m == params.max_hops as int,
                        m >= 1,
                        base == (graph.pools@.len() + 1) as nat,
                        deg == neigh@.len(),
                        j <= deg,
                        deg <= base - 1,
                        forall|k: int|
                            0 <= k < neigh@.len() ==> graph.pools@.contains(
                                (#[trigger] neigh@[k]).1,
                            ) && neigh@[k].1.spec_other(st.0) == Some(neigh@[k].0),
                        state_ok(graph.pools@, st, *from, a0),
                        st.1@.len() < m,
                        b_st == state_budget(st, m),
                        b_st >= 1,
                        forall|k: int|
                            0 <= k < queue@.len() ==> state_ok(
                                graph.pools@,
                                #[trigger] queue@[k],
                                *from,
                                a0,
                            ) && queue@[k].1@.len() <= m,
                        pot(frontier_budgets(queue@, m), base) <= pot_popped + j * wpow(
                            base,
                            (b_st - 1) as nat,
                        ),
                        *from != *to && has_direct_edge(graph.pools@, *from, *to)
                            ==> to_state_pending(queue@, *to) || direct_edge_pending(
                            neigh@,
                            j as int,
                            *to,
                            st.0,
                        ) || start_pending(queue@, *from, visited@),
                    decreases deg - j,
                {
                    let (next_token, pool) = neigh[j];
                    let ghost qb = queue@;
                    proof {
                        lemma_pool_in_wf(graph.pools@, pool);
                    }
                    match pool.get_output_amount(&st.0, st.2) {
                        Some(out) => {
                            let mut new_route = copy_vec(&st.1);
                            let step = SwapStep { from: st.0, to: next_token, pool };
                            new_route.push(step);
                            proof {
                                lemma_linked_snoc(st.1@, *from, st.0, step);
                                lemma_steps_in_snoc(st.1@, graph.pools@, step);
                                lemma_chain_out_snoc(st.1@, step, a0);
                            }
                            queue.push_back((next_token, new_route, out));
                            proof {
                                assert(forall|k: int|
                                    0 <= k < qb.len() ==> #[trigger] queue@[k] == qb[k]);
                                assert(frontier_budgets(queue@, m) =~= frontier_budgets(
                                    qb,
                                    m,
                                ).push((b_st - 1) as nat));
                                lemma_pot_push(frontier_budgets(qb, m), base, (b_st - 1) as nat);
                                assert((j + 1) * wpow(base, (b_st - 1) as nat) == j * wpow(
                                    base,
                                    (b_st - 1) as nat,
                                ) + wpow(base, (b_st - 1) as nat)) by (nonlinear_arith);
                                if *from != *to && has_direct_edge(graph.pools@, *from, *to) {
                                    if to_state_pending(qb, *to) {
                                        let k = choose|k: int|
                                            0 <= k < qb.len() && (#[trigger] qb[k]).0 == *to
                                                && qb[k].1@.len() >= 1;
                                        assert(queue@[k] == qb[k]);
                                        assert(to_state_pending(queue@, *to));
                                    } else if direct_edge_pending(neigh@, j as int, *to, st.0) {
                                        let jj = choose|jj: int|
                                            j <= jj < neigh@.len() && (#[trigger] neigh@[jj]).0
                                                == *to && neigh@[jj].1.passable_from(st.0);
                                        if jj == j {
                                            assert(queue@[queue@.len() - 1] == (
                                                next_token,
                                                new_route,
                                                out,
                                            ));
                                            assert(next_token == *to);
                                            assert(to_state_pending(queue@, *to));
                                        } else {
                                            assert(direct_edge_pending(
                                                neigh@,
                                                j + 1,
                                                *to,
                                                st.0,
                                            ));
                                        }
                                    } else {
                                        let k = choose|k: int|
                                            0 <= k < qb.len() && (#[trigger] qb[k]).0 == *from
                                                && qb[k].1@.len() == 0;
                                        assert(queue@[k] == qb[k]);
                                        assert(start_pending(queue@, *from, visited@));
                                    }
                                }
                            }
                        },
                        None => {
                            proof {
                                assert((j + 1) * wpow(base, (b_st - 1) as nat) >= j * wpow(
                                    base,
                                    (b_st - 1) as nat,
                                )) by (nonlinear_arith)
                                    requires
                                        wpow(base, (b_st - 1) as nat) >= 0,
                                        j >= 0,
                                ;
                                if direct_edge_pending(neigh@, j as int, *to, st.0) {
                                    let jj = choose|jj: int|
                                        j <= jj < neigh@.len() && (#[trigger] neigh@[jj]).0 == *to
                                            && neigh@[jj].1.passable_from(st.0);
                                    if jj == j {
                                        lemma_spec_out_passable(pool, st.0, st.2.atoms as int);
                                        assert(false);
                                    }
                                    assert(direct_edge_pending(neigh@, j + 1, *to, st.0));
                                }
                            }
                        },
                    }
                    j += 1;
                }
                proof {
                    lemma_pot_expand(base, (b_st - 1) as nat, deg as nat);
                    assert(((b_st - 1) as nat + 1) as nat == b_st);
                    assert(deg * wpow(base, (b_st - 1) as nat) < wpow(base, b_st));
                    assert(pot(frontier_budgets(queue@, m), base) < pot(
                        frontier_budgets(q0, m),
                        base,
                    ));
                    if *from != *to && has_direct_edge(graph.pools@, *from, *to) {
                        if direct_edge_pending(neigh@, deg as int, *to, st.0) {
                            let jj = choose|jj: int|
                                deg <= jj < neigh@.len() && (#[trigger] neigh@[jj]).0 == *to
                                    && neigh@[jj].1.passable_from(st.0);
                            assert(false);
                        }
                    }
                }
            }
        }
    }
    proof {
        if *from != *to && has_direct_edge(graph.pools@, *from, *to) {
            if to_state_pending(queue@, *to) {
                let k = choose|k: int|
                    0 <= k < queue@.len() && (#[trigger] queue@[k]).0 == *to && queue@[k].1@.len()
                        >= 1;
                assert(false);
            } else {
                assert(start_pending(queue@, *from, visited@));
                let k = choose|k: int|
                    0 <= k < queue@.len() && (#[trigger] queue@[k]).0 == *from
                        && queue@[k].1@.len() == 0;
                assert(false);
            }
        }
    }
    None
}

} // verus!
