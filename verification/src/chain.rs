//! What a route means: linked chains of swap steps, the exact amount a
//! chain pays out, and the laws the searches are held to.

use vstd::prelude::*;

use crate::amount::{lemma_amm_fee_mono, lemma_amm_input_mono, lemma_amm_out_bounds};
use crate::types::{Pool, Route, SwapStep, Token};

verus! {

/// The steps form a connected chain: each step crosses its own pool from
/// one side to the other, consecutive steps share their middle asset, and a
/// non-empty chain starts at `from` and ends at `to`.
pub open spec fn linked(steps: Seq<SwapStep>, from: Token, to: Token) -> bool {
    &&& forall|i: int|
        0 <= i < steps.len() ==> (#[trigger] steps[i]).pool.spec_other(steps[i].from) == Some(
            steps[i].to,
        )
    &&& forall|i: int| 0 <= i < steps.len() - 1 ==> (#[trigger] steps[i]).to == steps[i + 1].from
    &&& steps.len() > 0 ==> steps[0].from == from && steps[steps.len() - 1].to == to
}

/// Every pool crossed by the steps is well formed.
pub open spec fn steps_wf(steps: Seq<SwapStep>) -> bool {
    forall|i: int| 0 <= i < steps.len() ==> (#[trigger] steps[i]).pool.wf()
}

/// Every pool crossed by the steps belongs to the pool list.
pub open spec fn steps_in(steps: Seq<SwapStep>, pools: Seq<Pool>) -> bool {
    forall|i: int| 0 <= i < steps.len() ==> pools.contains((#[trigger] steps[i]).pool)
}

/// The exact amount that traversing `steps` pays out for `a` atoms in:
/// `None` as soon as one edge is impassable, otherwise the composition of
/// the pools' constant-product outputs.
pub open spec fn chain_out(steps: Seq<SwapStep>, a: int) -> Option<int>
    decreases steps.len(),
{
    if steps.len() == 0 {
        Some(a)
    } else {
        match steps[0].pool.spec_out(steps[0].from, a) {
            Some(o) => chain_out(steps.subrange(1, steps.len() as int), o),
            None => None,
        }
    }
}

/// What every successful search result means: a non-empty linked chain from
/// `from` to `to` through pools of the graph, whose recorded output is
/// exactly what the chain pays for `a0` atoms in.
pub open spec fn valid_route(
    pools: Seq<Pool>,
    r: Route,
    from: Token,
    to: Token,
    a0: int,
) -> bool {
    &&& r.steps@.len() >= 1
    &&& linked(r.steps@, from, to)
    &&& steps_in(r.steps@, pools)
    &&& chain_out(r.steps@, a0) == Some(r.output_amount.atoms as int)
    &&& r.output_amount.wf()
}

/// Whether some connected chain of at most `m` hops leads from `from` to
/// `to` through the pool list.
pub open spec fn path_exists(pools: Seq<Pool>, from: Token, to: Token, m: int) -> bool {
    exists|steps: Seq<SwapStep>|
        1 <= steps.len() <= m && linked(steps, from, to) && steps_in(steps, pools)
}

/// Whether some pool of the list crosses directly from `from` to `to`
/// with reserve on the `from` side. Exactly then the direct edge pays out,
/// whatever the amount.
pub open spec fn has_direct_edge(pools: Seq<Pool>, from: Token, to: Token) -> bool {
    exists|i: int|
        0 <= i < pools.len() && (#[trigger] pools[i]).spec_other(from) == Some(to)
            && pools[i].passable_from(from)
}

/// A pool with distinct assets pays out exactly when it is passable from
/// the input side, whatever the amount.
pub proof fn lemma_spec_out_passable(p: Pool, t: Token, a: int)
    requires
        p.token0 != p.token1,
    ensures
        (p.spec_out(t, a) is Some) == p.passable_from(t),
{
}

/// The shared contract of every search result: either nothing, or a valid
/// route of at most `m` hops.
pub open spec fn found_route_ok(
    pools: Seq<Pool>,
    from: Token,
    to: Token,
    a0: int,
    m: int,
    r: Option<Route>,
) -> bool {
    match r {
        None => true,
        Some(rt) => valid_route(pools, rt, from, to, a0) && rt.steps@.len() <= m,
    }
}

/// Appending a step that departs from the chain's current endpoint keeps
/// the chain connected, ending at the step's destination.
pub proof fn lemma_linked_snoc(steps: Seq<SwapStep>, from: Token, cur: Token, st: SwapStep)
    requires
        linked(steps, from, cur),
        steps.len() == 0 ==> cur == from,
        st.from == cur,
        st.pool.spec_other(st.from) == Some(st.to),
    ensures
        linked(steps.push(st), from, st.to),
{
    let all = steps.push(st);
    assert(all[all.len() - 1] == st);
    assert(forall|i: int| 0 <= i < steps.len() ==> #[trigger] all[i] == steps[i]);
    if steps.len() > 0 {
        assert(all[0] == steps[0]);
        assert(all[steps.len() - 1] == steps[steps.len() - 1]);
    }
}

/// Appending a step from the pool list keeps every step's pool in the
/// list.
pub proof fn lemma_steps_in_snoc(steps: Seq<SwapStep>, pools: Seq<Pool>, st: SwapStep)
    requires
        steps_in(steps, pools),
        pools.contains(st.pool),
    ensures
        steps_in(steps.push(st), pools),
{
    let all = steps.push(st);
    assert(forall|i: int| 0 <= i < steps.len() ==> #[trigger] all[i] == steps[i]);
    assert(all[all.len() - 1] == st);
}

/// A pool drawn from a list of well-formed pools is well formed.
pub proof fn lemma_pool_in_wf(pools: Seq<Pool>, p: Pool)
    requires
        forall|i: int| 0 <= i < pools.len() ==> (#[trigger] pools[i]).wf(),
        pools.contains(p),
    ensures
        p.wf(),
{
    let i = choose|i: int| 0 <= i < pools.len() && pools[i] == p;
    assert(pools[i].wf());
}

/// Appending one step evaluates the chain first and then the new step.
pub proof fn lemma_chain_out_snoc(steps: Seq<SwapStep>, st: SwapStep, a: int)
    ensures
        chain_out(steps.push(st), a) == (match chain_out(steps, a) {
            Some(o) => st.pool.spec_out(st.from, o),
            None => None,
        }),
    decreases steps.len(),
{
    let all = steps.push(st);
    if steps.len() == 0 {
        assert(all[0] == st);
        match st.pool.spec_out(st.from, a) {
            Some(o) => {
                assert(all.subrange(1, all.len() as int) =~= Seq::<SwapStep>::empty());
                assert(chain_out(all.subrange(1, all.len() as int), o) == Some(o));
            },
            None => {},
        }
    } else {
        assert(all[0] == steps[0]);
        match steps[0].pool.spec_out(steps[0].from, a) {
            Some(o) => {
                assert(all.subrange(1, all.len() as int) =~= steps.subrange(
                    1,
                    steps.len() as int,
                ).push(st));
                lemma_chain_out_snoc(steps.subrange(1, steps.len() as int), st, o);
            },
            None => {},
        }
    }
}

/// Whether a chain pays out at all does not depend on the input amount,
/// and a larger input never pays out less.
pub proof fn lemma_chain_input_mono(steps: Seq<SwapStep>, a1: int, a2: int)
    requires
        steps_wf(steps),
        0 <= a1 <= a2,
    ensures
        (chain_out(steps, a1) is Some) == (chain_out(steps, a2) is Some),
        chain_out(steps, a1) matches Some(o1) ==> (chain_out(steps, a2) matches Some(o2) && o1
            <= o2),
    decreases steps.len(),
{
    if steps.len() > 0 {
        let p = steps[0].pool;
        let t = steps[0].from;
        match p.spec_out(t, a1) {
            Some(o1) => {
                let o2 = p.spec_out(t, a2)->Some_0;
                if t == p.token0 {
                    lemma_amm_input_mono(
                        p.reserve0.atoms as int,
                        p.reserve1.atoms as int,
                        a1,
                        a2,
                        p.fee_bps as int,
                    );
                    lemma_amm_out_bounds(
                        p.reserve0.atoms as int,
                        p.reserve1.atoms as int,
                        a1,
                        p.fee_bps as int,
                    );
                } else {
                    lemma_amm_input_mono(
                        p.reserve1.atoms as int,
                        p.reserve0.atoms as int,
                        a1,
                        a2,
                        p.fee_bps as int,
                    );
                    lemma_amm_out_bounds(
                        p.reserve1.atoms as int,
                        p.reserve0.atoms as int,
                        a1,
                        p.fee_bps as int,
                    );
                }
                assert(steps_wf(steps.subrange(1, steps.len() as int)));
                lemma_chain_input_mono(steps.subrange(1, steps.len() as int), o1, o2);
            },
            None => {},
        }
    }
}

/// Two chains cross the same pools in the same directions, except that the
/// second charges pointwise higher fees.
pub open spec fn same_but_fees(steps1: Seq<SwapStep>, steps2: Seq<SwapStep>) -> bool {
    &&& steps1.len() == steps2.len()
    &&& forall|i: int|
        0 <= i < steps1.len() ==> {
            let p1 = (#[trigger] steps1[i]).pool;
            let p2 = (#[trigger] steps2[i]).pool;
            &&& steps2[i].from == steps1[i].from
            &&& steps2[i].to == steps1[i].to
            &&& p2.token0 == p1.token0
            &&& p2.token1 == p1.token1
            &&& p2.reserve0 == p1.reserve0
            &&& p2.reserve1 == p1.reserve1
            &&& p1.fee_bps <= p2.fee_bps
        }
}

/// Fee monotonicity along a fixed chain of pools: raising fees, holding
/// reserves and input fixed, never raises the truncated output and never
/// turns an impassable chain passable.
pub proof fn lemma_chain_fee_mono(steps1: Seq<SwapStep>, steps2: Seq<SwapStep>, a: int)
    requires
        same_but_fees(steps1, steps2),
        steps_wf(steps1),
        steps_wf(steps2),
        0 <= a,
    ensures
        (chain_out(steps1, a) is Some) == (chain_out(steps2, a) is Some),
        chain_out(steps1, a) matches Some(o1) ==> (chain_out(steps2, a) matches Some(o2) && o2
            <= o1),
    decreases steps1.len(),
{
    if steps1.len() > 0 {
        let p1 = steps1[0].pool;
        let p2 = steps2[0].pool;
        let t = steps1[0].from;
        assert(p2.spec_out(t, a) is Some <==> p1.spec_out(t, a) is Some);
        match p1.spec_out(t, a) {
            Some(o1) => {
                let o2 = p2.spec_out(t, a)->Some_0;
                if t == p1.token0 {
                    lemma_amm_fee_mono(
                        p1.reserve0.atoms as int,
                        p1.reserve1.atoms as int,
                        a,
                        p1.fee_bps as int,
                        p2.fee_bps as int,
                    );
                    lemma_amm_out_bounds(
                        p1.reserve0.atoms as int,
                        p1.reserve1.atoms as int,
                        a,
                        p2.fee_bps as int,
                    );
                } else {
                    lemma_amm_fee_mono(
                        p1.reserve1.atoms as int,
                        p1.reserve0.atoms as int,
                        a,
                        p1.fee_bps as int,
                        p2.fee_bps as int,
                    );
                    lemma_amm_out_bounds(
                        p1.reserve1.atoms as int,
                        p1.reserve0.atoms as int,
                        a,
                        p2.fee_bps as int,
                    );
                }
                let tail1 = steps1.subrange(1, steps1.len() as int);
                let tail2 = steps2.subrange(1, steps2.len() as int);
                assert(same_but_fees(tail1, tail2)) by {
                    assert(forall|i: int|
                        0 <= i < tail1.len() ==> #[trigger] tail1[i] == steps1[i + 1]
                            && #[trigger] tail2[i] == steps2[i + 1]);
                }
                assert(steps_wf(tail1));
                assert(steps_wf(tail2));
                // the higher-fee chain carries a smaller amount into an
                // otherwise identical tail
                lemma_chain_input_mono(tail2, o2, o1);
                lemma_chain_fee_mono(tail1, tail2, o1);
            },
            None => {},
        }
    }
}

/// Connectivity invariant of every successful route: it starts at the
/// query's source asset, ends at its destination, and consecutive steps
/// hand over the same asset.
pub proof fn lemma_route_connectivity(
    pools: Seq<Pool>,
    r: Route,
    from: Token,
    to: Token,
    a0: int,
)
    requires
        valid_route(pools, r, from, to, a0),
    ensures
        r.steps@[0].from == from,
        r.steps@[r.steps@.len() - 1].to == to,
        forall|i: int|
            0 <= i < r.steps@.len() - 1 ==> (#[trigger] r.steps@[i]).to == r.steps@[i + 1].from,
{
}

/// No-route correctness: a result that meets the shared search contract is
/// `None` whenever no connecting chain of at most `m` hops exists.
pub proof fn lemma_no_route(
    pools: Seq<Pool>,
    from: Token,
    to: Token,
    a0: int,
    m: int,
    r: Option<Route>,
)
    requires
        found_route_ok(pools, from, to, a0, m, r),
        !path_exists(pools, from, to, m),
    ensures
        r is None,
{
    match r {
        Some(rt) => {
            assert(1 <= rt.steps@.len() <= m && linked(rt.steps@, from, to) && steps_in(
                rt.steps@,
                pools,
            ));
            assert(path_exists(pools, from, to, m));
        },
        None => {},
    }
}

} // verus!
