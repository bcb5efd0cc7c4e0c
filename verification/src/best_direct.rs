//! Direct-best strategy: the best single-hop route, if any edge connects
//! the two assets directly.

use vstd::prelude::*;

use crate::amount::Amount;
use crate::chain::{
    chain_out, found_route_ok, has_direct_edge, lemma_spec_out_passable, valid_route,
};
use crate::graph::{lemma_touching_complete, lemma_touching_props, touching, Graph};
use crate::types::{ExecutionParams, Pool, Route, Side, SwapStep, Token};

verus! {

/// The best single-hop output among the pools of `pools` that connect
/// `from` directly to `to`: `None` when no such pool pays out, otherwise
/// the maximum output.
pub open spec fn best_out_among(pools: Seq<Pool>, from: Token, to: Token, a: int) -> Option<int>
    decreases pools.len(),
{
    if pools.len() == 0 {
        None
    } else {
        let rest = best_out_among(pools.drop_last(), from, to, a);
        let p = pools.last();
        let cur = if p.spec_other(from) == Some(to) {
            p.spec_out(from, a)
        } else {
            None
        };
        match (rest, cur) {
            (Some(b), Some(c)) => if c >= b {
                Some(c)
            } else {
                Some(b)
            },
            (Some(b), None) => Some(b),
            (None, c) => c,
        }
    }
}

/// The best single-hop output from `from` to `to` over a whole pool list.
pub open spec fn direct_best_out(pools: Seq<Pool>, from: Token, to: Token, a: int) -> Option<
    int,
> {
    best_out_among(touching(pools, from), from, to, a)
}

/// The position in `s` of the pool the direct-best strategy settles on:
/// the last one attaining the best output, or `-1` when none pays out.
/// Together with the best output this pins the returned route completely,
/// so equal queries give identical routes.
pub open spec fn best_idx_among(s: Seq<Pool>, from: Token, to: Token, a: int) -> int
    decreases s.len(),
{
    if s.len() == 0 {
        -1
    } else {
        let rest = best_idx_among(s.drop_last(), from, to, a);
        let p = s.last();
        let cur = if p.spec_other(from) == Some(to) {
            p.spec_out(from, a)
        } else {
            None
        };
        match cur {
            Some(c) => if rest == -1 || c >= best_out_among(
                s.drop_last(),
                from,
                to,
                a,
            )->Some_0 {
                s.len() - 1
            } else {
                rest
            },
            None => rest,
        }
    }
}

/// The position of the settled pool within the adjacency list of `from`.
pub open spec fn direct_best_idx(pools: Seq<Pool>, from: Token, to: Token, a: int) -> int {
    best_idx_among(touching(pools, from), from, to, a)
}

/// The settled position is `-1` exactly when nothing pays out, and a
/// proper position otherwise.
pub proof fn lemma_best_idx_range(s: Seq<Pool>, from: Token, to: Token, a: int)
    ensures
        (best_idx_among(s, from, to, a) == -1) == (best_out_among(s, from, to, a) is None),
        best_idx_among(s, from, to, a) != -1 ==> 0 <= best_idx_among(s, from, to, a) < s.len(),
    decreases s.len(),
{
    if s.len() > 0 {
        lemma_best_idx_range(s.drop_last(), from, to, a);
    }
}

/// Some pool of the list pays out on the single hop exactly when a
/// passable direct edge exists.
pub proof fn lemma_best_out_iff(s: Seq<Pool>, from: Token, to: Token, a: int)
    ensures
        (best_out_among(s, from, to, a) is Some) == exists|i: int|
            0 <= i < s.len() && (#[trigger] s[i]).spec_other(from) == Some(to) && (s[i].spec_out(
                from,
                a,
            ) is Some),
    decreases s.len(),
{
    if s.len() > 0 {
        let shorter = s.drop_last();
        lemma_best_out_iff(shorter, from, to, a);
        let p = s.last();
        if best_out_among(s, from, to, a) is Some {
            if p.spec_other(from) == Some(to) && p.spec_out(from, a) is Some {
                assert(s[s.len() - 1] == p);
            } else {
                let i = choose|i: int|
                    0 <= i < shorter.len() && (#[trigger] shorter[i]).spec_other(from) == Some(
                        to,
                    ) && (shorter[i].spec_out(from, a) is Some);
                assert(s[i] == shorter[i]);
            }
        }
        if exists|i: int|
            0 <= i < s.len() && (#[trigger] s[i]).spec_other(from) == Some(to) && (s[i].spec_out(
                from,
                a,
            ) is Some) {
            let i = choose|i: int|
                0 <= i < s.len() && (#[trigger] s[i]).spec_other(from) == Some(to) && (
                s[i].spec_out(from, a) is Some);
            if i < s.len() - 1 {
                assert(shorter[i] == s[i]);
            }
        }
    }
}

/// The best direct output exists exactly when a passable direct edge
/// exists, whatever the amount.
pub proof fn lemma_direct_best_iff_edge(pools: Seq<Pool>, from: Token, to: Token, a: int)
    requires
        forall|i: int| 0 <= i < pools.len() ==> (#[trigger] pools[i]).wf(),
    ensures
        (direct_best_out(pools, from, to, a) is Some) == has_direct_edge(pools, from, to),
{
    let tl = touching(pools, from);
    lemma_best_out_iff(tl, from, to, a);
    lemma_touching_props(pools, from);
    if direct_best_out(pools, from, to, a) is Some {
        let i = choose|i: int|
            0 <= i < tl.len() && (#[trigger] tl[i]).spec_other(from) == Some(to) && (
            tl[i].spec_out(from, a) is Some);
        let p = tl[i];
        assert(pools.contains(p));
        let w = choose|w: int| 0 <= w < pools.len() && pools[w] == p;
        lemma_spec_out_passable(p, from, a);
        assert(has_direct_edge(pools, from, to));
    }
    if has_direct_edge(pools, from, to) {
        let w = choose|w: int|
            0 <= w < pools.len() && (#[trigger] pools[w]).spec_other(from) == Some(to)
                && pools[w].passable_from(from);
        let p = pools[w];
        assert(pools.contains(p));
        lemma_touching_complete(pools, from, p);
        let i = choose|i: int| 0 <= i < tl.len() && tl[i] == p;
        lemma_spec_out_passable(p, from, a);
        assert(tl[i].spec_other(from) == Some(to) && (tl[i].spec_out(from, a) is Some));
        assert(best_out_among(tl, from, to, a) is Some);
    }
}

/// Considers only the pools connecting `from` directly to `to` and returns
/// the one-step route maximizing the output, or `None` when no direct edge
/// pays out.
pub fn best_direct(
    side: Side,
    graph: &Graph,
    from: &Token,
    to: &Token,
    amount_in: Amount,
    params: ExecutionParams,
) -> (r: Option<Route>)
    requires
        graph.wf(),
        amount_in.wf(),
        params.max_hops >= 1,
    ensures
        found_route_ok(
            graph.pools@,
            *from,
            *to,
            amount_in.atoms as int,
            params.max_hops as int,
            r,
        ),
        (r is Some) == (direct_best_out(graph.pools@, *from, *to, amount_in.atoms as int)
            is Some),
        r matches Some(rt) ==> {
            &&& Some(rt.output_amount.atoms as int) == direct_best_out(
                graph.pools@,
                *from,
                *to,
                amount_in.atoms as int,
            )
            &&& rt.steps@.len() == 1
            &&& rt.steps@[0] == (SwapStep {
                from: *from,
                to: *to,
                pool: touching(graph.pools@, *from)[direct_best_idx(
                    graph.pools@,
                    *from,
                    *to,
                    amount_in.atoms as int,
                )],
            })
        },
{
    let ghost all = touching(graph.pools@, *from);
    let ghost a0 = amount_in.atoms as int;
    proof {
        lemma_touching_props(graph.pools@, *from);
    }
    let neigh = graph.neighbors(from);
    let mut best: Option<Route> = None;
    let n = neigh.len();
    let mut j: usize = 0;
    while j < n
        invariant
            graph.wf(),
            amount_in.wf(),
            n == neigh@.len(),
            j <= n,
            all == touching(graph.pools@, *from),
            a0 == amount_in.atoms as int,
            neigh@.len() == all.len(),
            forall|k: int|
                0 <= k < neigh@.len() ==> #[trigger] neigh@[k] == (
                    all[k].spec_other(*from)->Some_0,
                    all[k],
                ),
            forall|k: int|
                0 <= k < all.len() ==> graph.pools@.contains(#[trigger] all[k])
                    && all[k].touches(*from),
            (best is Some) == (best_out_among(all.subrange(0, j as int), *from, *to, a0)
                is Some),
            best matches Some(rt) ==> {
                &&& Some(rt.output_amount.atoms as int) == best_out_among(
                    all.subrange(0, j as int),
                    *from,
                    *to,
                    a0,
                )
                &&& valid_route(graph.pools@, rt, *from, *to, a0)
                &&& rt.steps@.len() == 1
                &&& rt.steps@[0] == (SwapStep {
                    from: *from,
                    to: *to,
                    pool: all[best_idx_among(all.subrange(0, j as int), *from, *to, a0)],
                })
            },
        decreases n - j,
    {
        let (next_token, pool) = neigh[j];
        let ghost prefix = all.subrange(0, j as int);
        proof {
            assert(all.subrange(0, j + 1).drop_last() =~= prefix);
            assert(all.subrange(0, j + 1).last() == all[j as int]);
            lemma_best_idx_range(prefix, *from, *to, a0);
            lemma_best_idx_range(all.subrange(0, j + 1), *from, *to, a0);
        }
        if next_token.0 == to.0 {
            proof {
                assert(all[j as int].spec_other(*from) == Some(*to));
            }
            match pool.get_output_amount(from, amount_in) {
                Some(out) => {
                    let take = match &best {
                        None => true,
                        Some(b) => out.atoms >= b.output_amount.atoms,
                    };
                    if take {
                        let step = SwapStep { from: *from, to: *to, pool };
                        let candidate = Route { steps: vec![step], output_amount: out };
                        proof {
                            assert(candidate.steps@.len() == 1);
                            assert(candidate.steps@[0] == step);
                            assert(candidate.steps@.subrange(1, 1) =~= Seq::<SwapStep>::empty());
                            assert(chain_out(Seq::<SwapStep>::empty(), out.atoms as int)
                                == Some(out.atoms as int));
                            assert(chain_out(candidate.steps@, a0) == Some(
                                out.atoms as int,
                            ));
                        }
                        best = Some(candidate);
                    }
                },
                None => {},
            }
        }
        proof {
            assert(all.subrange(0, n as int) =~= all);
        }
        j += 1;
    }
    proof {
        assert(all.subrange(0, n as int) =~= all);
    }
    best
}

} // verus!
