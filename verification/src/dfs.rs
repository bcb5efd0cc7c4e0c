//! Depth-first strategy: explores along a stack, forbids revisiting an
//! asset already on the current path, and returns the first completed
//! route under its dominance-pruning policy.

use vstd::prelude::*;

use std::collections::HashMap;
use std::collections::VecDeque;

use crate::amount::Amount;
use crate::bfs::{
    direct_edge_pending, lemma_direct_edge_in_neighbors, start_pending, state_budget, state_ok,
    to_state_pending, SearchState,
};
use crate::chain::{
    found_route_ok, has_direct_edge, lemma_chain_out_snoc, lemma_linked_snoc, lemma_pool_in_wf,
    lemma_spec_out_passable, lemma_steps_in_snoc,
};
use crate::graph::{lemma_touching_props, Graph};
use crate::measure::{lemma_pot_expand, lemma_pot_push, lemma_pot_remove, lemma_wpow_pos, pot,
    wpow};
use crate::types::{contains_token, copy_vec, ExecutionParams, Route, Side, SwapStep, Token};

verus! {

broadcast use vstd::std_specs::hash::group_hash_axioms;

/// A stack entry: a partial route plus the assets already on the path.
type DfsEntry = (SearchState, Vec<Token>);

/// The partial routes of the whole stack, without their path-local sets.
spec fn entry_states(q: Seq<DfsEntry>) -> Seq<SearchState> {
    q.map_values(|e: DfsEntry| e.0)
}

/// The hop budgets of the whole stack.
spec fn stack_budgets(q: Seq<DfsEntry>, m: int) -> Seq<nat> {
    q.map_values(|e: DfsEntry| state_budget(e.0, m))
}

/// Every entry's path-local set is sound: it holds the source, the start
/// entry's set holds nothing else, and no later entry sits at the source.
spec fn seen_ok(q: Seq<DfsEntry>, from: Token) -> bool {
    &&& forall|k: int| 0 <= k < q.len() ==> (#[trigger] q[k]).1@.contains(from)
    &&& forall|k: int|
        0 <= k < q.len() && (#[trigger] q[k]).0.1@.len() == 0 ==> q[k].1@.len() == 1
            && q[k].1@[0] == from
    &&& forall|k: int| 0 <= k < q.len() && (#[trigger] q[k]).0.1@.len() >= 1 ==> q[k].0.0 != from
}

/// Explores depth first, carrying per path the set of assets already
/// visited on it (never revisited), pruning an entry when its asset was
/// already expanded with at least the entry's amount, and returns the
/// first route completed at `to` in this order.
pub fn dfs(
    side: Side,
    graph: &Graph,
    from: &Token,
    to: &Token,
    amount_in: Amount,
    params: ExecutionParams,
) -> (r: Option<Route>)
    requires
        graph.wf(),
        amount_in.wf(),
        params.max_hops >= 1,
    ensures
        found_route_ok(
            graph.pools@,
            *from,
            *to,
            amount_in.atoms as int,
            params.max_hops as int,
            r,
        ),
        *from != *to && has_direct_edge(graph.pools@, *from, *to) ==> r is Some,
{
    let ghost a0 = amount_in.atoms as int;
    let ghost m = params.max_hops as int;
    let ghost base = (graph.pools@.len() + 1) as nat;
    let mut stack: VecDeque<DfsEntry> = VecDeque::new();
    let mut initial_seen: Vec<Token> = Vec::new();
    initial_seen.push(*from);
    stack.push_back(((*from, Vec::new(), amount_in), initial_seen));
    let mut visited: HashMap<u64, Amount> = HashMap::new();
    proof {
        assert(entry_states(stack@)[0].0 == *from && entry_states(stack@)[0].1@.len() == 0);
        assert(stack@[0].1@[0] == *from);
        assert(stack@[0].1@.contains(*from));
    }
    while stack.len() > 0
        invariant
            graph.wf(),
            amount_in.wf(),
            a0 == amount_in.atoms as int,
            m == params.max_hops as int,
            m >= 1,
            base == (graph.pools@.len() + 1) as nat,
            forall|k: int|
                0 <= k < stack@.len() ==> state_ok(
                    graph.pools@,
                    (#[trigger] stack@[k]).0,
                    *from,
                    a0,
                ) && stack@[k].0.1@.len() <= m,
            seen_ok(stack@, *from),
            *from != *to && has_direct_edge(graph.pools@, *from, *to) ==> to_state_pending(
                entry_states(stack@),
                *to,
            ) || start_pending(entry_states(stack@), *from, visited@),
        decreases pot(stack_budgets(stack@, m), base),
    {
        let ghost q0 = stack@;
        let entry = stack.pop_back().unwrap();
        let (st, seen) = entry;
        let ghost i0 = q0.len() as int - 1;
        let ghost b_st = state_budget(st, m);
        proof {
            assert(stack@ =~= q0.remove(i0));
            assert(stack_budgets(stack@, m) =~= stack_budgets(q0, m).remove(i0));
            lemma_pot_remove(stack_budgets(q0, m), base, i0);
            assert(stack_budgets(q0, m)[i0] == b_st);
            lemma_wpow_pos(base, b_st);
            assert(entry_states(stack@) =~= entry_states(q0).remove(i0));
        }
        let ghost pot_popped = pot(stack_budgets(stack@, m), base);
        if st.0.0 == to.0 && st.1.len() > 0 {
            proof {
                assert(st.0 == *to);
            }
            return Some(Route { steps: st.1, output_amount: st.2 });
        }
        if st.1.len() >= params.max_hops {
            proof {
                if *from != *to && has_direct_edge(graph.pools@, *from, *to) {
                    pop_progress(q0, stack@, i0, *from, *to, visited@);
                }
            }
        } else {
            let dominated = match visited.get(&st.0.0) {
                Some(prev) => prev.atoms >= st.2.atoms,
                None => false,
            };
            if dominated {
                proof {
                    if *from != *to && has_direct_edge(graph.pools@, *from, *to) {
                        // a dominated entry's asset was expanded before, so
                        // it cannot be the pending start entry
                        assert(visited@.contains_key(st.0.0));
                        pop_progress(q0, stack@, i0, *from, *to, visited@);
                    }
                }
            } else {
                visited.insert(st.0.0, st.2);
                proof {
                    lemma_touching_props(graph.pools@, st.0);
                }
                let neigh = graph.neighbors(&st.0);
                proof {
                    if *from != *to && has_direct_edge(graph.pools@, *from, *to) {
                        if to_state_pending(entry_states(q0), *to) {
                            let k = choose|k: int|
                                0 <= k < entry_states(q0).len() && (#[trigger] entry_states(
                                    q0,
                                )[k]).0 == *to && entry_states(q0)[k].1@.len() >= 1;
                            assert(k != i0);
                            assert(entry_states(stack@)[k] == entry_states(q0)[k]);
                            assert(to_state_pending(entry_states(stack@), *to));
                        } else if st.0 == *from {
                            // the popped entry sits at the source, so by
                            // `seen_ok` it is the start entry: its path-local
                            // set holds the source alone
                            assert(q0[i0].0.1@.len() == 0);
                            assert(seen@.len() == 1 && seen@[0] == *from);
                            assert(!seen@.contains(*to)) by {
                                if seen@.contains(*to) {
                                    let w = choose|w: int|
                                        0 <= w < seen@.len() && seen@[w] == *to;
                                    assert(false);
                                }
                            }
                            lemma_direct_edge_in_neighbors(graph.pools@, neigh@, st.0, *to);
                        } else {
                            let k = choose|k: int|
                                0 <= k < entry_states(q0).len() && (#[trigger] entry_states(
                                    q0,
                                )[k]).0 == *from && entry_states(q0)[k].1@.len() == 0;
                            assert(k != i0);
                            assert(entry_states(stack@)[k] == entry_states(q0)[k]);
                            assert(st.0.0 != from.0);
                            assert(!visited@.contains_key(from.0));
                            assert(start_pending(entry_states(stack@), *from, visited@));
                        }
                    }
                }
                let deg = neigh.len();
                let mut j: usize = 0;
                while j < deg
                    invariant
                        graph.wf(),
                        a0 == amount_in.atoms as int,
                        m == params.max_hops as int,
                        m >= 1,
                        base == (graph.pools@.len() + 1) as nat,
                        deg == neigh@.len(),
                        j <= deg,
                        deg <= base - 1,
                        forall|k: int|
                            0 <= k < neigh@.len() ==> graph.pools@.contains(
                                (#[trigger] neigh@[k]).1,
                            ) && neigh@[k].1.spec_other(st.0) == Some(neigh@[k].0),
                        state_ok(graph.pools@, st, *from, a0),
                        st.1@.len() < m,
                        b_st == state_budget(st, m),
                        b_st >= 1,
                        seen@.contains(*from),
                        forall|k: int|
                            0 <= k < stack@.len() ==> state_ok(
                                graph.pools@,
                                (#[trigger] stack@[k]).0,
                                *from,
                                a0,
                            ) && stack@[k].0.1@.len() <= m,
                        seen_ok(stack@, *from),
                        pot(stack_budgets(stack@, m), base) <= pot_popped + j * wpow(
                            base,
                            (b_st - 1) as nat,
                        ),
                        *from != *to && has_direct_edge(graph.pools@, *from, *to)
                            ==> to_state_pending(entry_states(stack@), *to) || (
                        direct_edge_pending(neigh@, j as int, *to, st.0)
                            && !seen@.contains(*to)) || start_pending(
                            entry_states(stack@),
                            *from,
                            visited@,
                        ),
                    decreases deg - j,
                {
                    let (next_token, pool) = neigh[j];
                    let ghost qb = stack@;
                    let skip = contains_token(&seen, &next_token);
                    if !skip {
                        proof {
                            lemma_pool_in_wf(graph.pools@, pool);
                        }
                        match pool.get_output_amount(&st.0, st.2) {
                            Some(out) => {
                                let mut new_route = copy_vec(&st.1);
                                let step = SwapStep { from: st.0, to: next_token, pool };
                                new_route.push(step);
                                let mut new_seen = copy_vec(&seen);
                                new_seen.push(next_token);
                                proof {
                                    lemma_linked_snoc(st.1@, *from, st.0, step);
                                    lemma_steps_in_snoc(st.1@, graph.pools@, step);
                                    lemma_chain_out_snoc(st.1@, step, a0);
                                    // the new path-local set still holds the
                                    // source, and the new entry left it
                                    let w = choose|w: int|
                                        0 <= w < seen@.len() && seen@[w] == *from;
                                    assert(new_seen@[w] == *from);
                                    assert(new_seen@.contains(*from));
                                    assert(next_token != *from);
                                }
                                stack.push_back(((next_token, new_route, out), new_seen));
                                proof {
                                    assert(forall|k: int|
                                        0 <= k < qb.len() ==> #[trigger] stack@[k] == qb[k]);
                                    assert(stack_budgets(stack@, m) =~= stack_budgets(
                                        qb,
                                        m,
                                    ).push((b_st - 1) as nat));
                                    lemma_pot_push(
                                        stack_budgets(qb, m),
                                        base,
                                        (b_st - 1) as nat,
                                    );
                                    assert((j + 1) * wpow(base, (b_st - 1) as nat) == j * wpow(
                                        base,
                                        (b_st - 1) as nat,
                                    ) + wpow(base, (b_st - 1) as nat)) by (nonlinear_arith);
                                    if *from != *to && has_direct_edge(
                                        graph.pools@,
                                        *from,
                                        *to,
                                    ) {
                                        if to_state_pending(entry_states(qb), *to) {
                                            let k = choose|k: int|
                                                0 <= k < entry_states(qb).len() && (
                                                #[trigger] entry_states(qb)[k]).0 == *to
                                                    && entry_states(qb)[k].1@.len() >= 1;
                                            assert(entry_states(stack@)[k] == entry_states(
                                                qb,
                                            )[k]);
                                            assert(to_state_pending(
                                                entry_states(stack@),
                                                *to,
                                            ));
                                        } else if direct_edge_pending(
                                            neigh@,
                                            j as int,
                                            *to,
                                            st.0,
                                        ) && !seen@.contains(*to) {
                                            let jj = choose|jj: int|
                                                j <= jj < neigh@.len() && (
                                                #[trigger] neigh@[jj]).0 == *to
                                                    && neigh@[jj].1.passable_from(st.0);
                                            if jj == j {
                                                assert(entry_states(stack@)[stack@.len() - 1]
                                                    == (next_token, new_route, out));
                                                assert(next_token == *to);
                                                assert(to_state_pending(
                                                    entry_states(stack@),
                                                    *to,
                                                ));
                                            } else {
                                                assert(direct_edge_pending(
                                                    neigh@,
                                                    j + 1,
                                                    *to,
                                                    st.0,
                                                ));
                                            }
                                        } else {
                                            let k = choose|k: int|
                                                0 <= k < entry_states(qb).len() && (
                                                #[trigger] entry_states(qb)[k]).0 == *from
                                                    && entry_states(qb)[k].1@.len() == 0;
                                            assert(entry_states(stack@)[k] == entry_states(
                                                qb,
                                            )[k]);
                                            assert(start_pending(
                                                entry_states(stack@),
                                                *from,
                                                visited@,
                                            ));
                                        }
                                    }
                                }
                            },
                            None => {
                                proof {
                                    if direct_edge_pending(neigh@, j as int, *to, st.0)
                                        && !seen@.contains(*to) {
                                        let jj = choose|jj: int|
                                            j <= jj < neigh@.len() && (#[trigger] neigh@[jj]).0
                                                == *to && neigh@[jj].1.passable_from(st.0);
                                        if jj == j {
                                            lemma_spec_out_passable(
                                                pool,
                                                st.0,
                                                st.2.atoms as int,
                                            );
                                            assert(false);
                                        }
                                        assert(direct_edge_pending(neigh@, j + 1, *to, st.0));
                                    }
                                }
                            },
                        }
                    } else {
                        proof {
                            if direct_edge_pending(neigh@, j as int, *to, st.0)
                                && !seen@.contains(*to) {
                                let jj = choose|jj: int|
                                    j <= jj < neigh@.len() && (#[trigger] neigh@[jj]).0 == *to
                                        && neigh@[jj].1.passable_from(st.0);
                                if jj == j {
                                    // the skipped neighbor is the destination,
                                    // which is not on the path
                                    assert(false);
                                }
                                assert(direct_edge_pending(neigh@, j + 1, *to, st.0));
                            }
                        }
                    }
                    proof {
                        assert((j + 1) * wpow(base, (b_st - 1) as nat) >= j * wpow(
                            base,
                            (b_st - 1) as nat,
                        )) by (nonlinear_arith)
                            requires
                                wpow(base, (b_st - 1) as nat) >= 0,
                                j >= 0,
                        ;
                    }
                    j += 1;
                }
                proof {
                    lemma_pot_expand(base, (b_st - 1) as nat, deg as nat);
                    assert(((b_st - 1) as nat + 1) as nat == b_st);
                    assert(deg * wpow(base, (b_st - 1) as nat) < wpow(base, b_st));
                    assert(pot(stack_budgets(stack@, m), base) < pot(
                        stack_budgets(q0, m),
                        base,
                    ));
                    if *from != *to && has_direct_edge(graph.pools@, *from, *to) {
                        if direct_edge_pending(neigh@, deg as int, *to, st.0) {
                            let jj = choose|jj: int|
                                deg <= jj < neigh@.len() && (#[trigger] neigh@[jj]).0 == *to
                                    && neigh@[jj].1.passable_from(st.0);
                            assert(false);
                        }
                    }
                }
            }
        }
    }
    proof {
        if *from != *to && has_direct_edge(graph.pools@, *from, *to) {
            if to_state_pending(entry_states(stack@), *to) {
                let k = choose|k: int|
                    0 <= k < entry_states(stack@).len() && (#[trigger] entry_states(
                        stack@,
                    )[k]).0 == *to && entry_states(stack@)[k].1@.len() >= 1;
                assert(false);
            } else {
                assert(start_pending(entry_states(stack@), *from, visited@));
                let k = choose|k: int|
                    0 <= k < entry_states(stack@).len() && (#[trigger] entry_states(
                        stack@,
                    )[k]).0 == *from && entry_states(stack@)[k].1@.len() == 0;
                assert(false);
            }
        }
    }
    None
}

/// Progress survives popping the top entry without expanding it, as long
/// as the popped entry is neither a pending completion nor the pending
/// start entry.
proof fn pop_progress(
    q0: Seq<DfsEntry>,
    q1: Seq<DfsEntry>,
    i: int,
    from: Token,
    to: Token,
    v: Map<u64, Amount>,
)
    requires
        0 <= i < q0.len(),
        q1 == q0.remove(i),
        to_state_pending(entry_states(q0), to) || start_pending(entry_states(q0), from, v),
        q0[i].0.0 == to ==> q0[i].0.1@.len() == 0,
        start_pending(entry_states(q0), from, v) ==> !(q0[i].0.0 == from && q0[i].0.1@.len()
            == 0),
    ensures
        to_state_pending(entry_states(q1), to) || start_pending(entry_states(q1), from, v),
{
    assert(entry_states(q1) =~= entry_states(q0).remove(i));
    if to_state_pending(entry_states(q0), to) {
        let k = choose|k: int|
            0 <= k < entry_states(q0).len() && (#[trigger] entry_states(q0)[k]).0 == to
                && entry_states(q0)[k].1@.len() >= 1;
        assert(k != i);
        if k < i {
            assert(entry_states(q1)[k] == entry_states(q0)[k]);
        } else {
            assert(entry_states(q1)[k - 1] == entry_states(q0)[k]);
        }
        assert(to_state_pending(entry_states(q1), to));
    } else {
        let k = choose|k: int|
            0 <= k < entry_states(q0).len() && (#[trigger] entry_states(q0)[k]).0 == from
                && entry_states(q0)[k].1@.len() == 0;
        assert(k != i);
        if k < i {
            assert(entry_states(q1)[k] == entry_states(q0)[k]);
        } else {
            assert(entry_states(q1)[k - 1] == entry_states(q0)[k]);
        }
        assert(start_pending(entry_states(q1), from, v));
    }
}

} // verus!
