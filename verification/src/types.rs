//! Domain types: assets, pools, swap steps, routes and query parameters.

use vstd::prelude::*;

use crate::amount::{amm_out, amm_out_atoms, Amount, MAX_ATOMS};

verus! {

/// Side of the trade. Accepted by every strategy but currently a no-op in
/// the pricing math; whether `Sell` should reverse the traversal direction
/// is a known open question, so the value is carried and ignored.
#[derive(Clone, Copy, Debug, PartialEq, Eq, Structural)]
pub enum Side {
    Buy,
    Sell,
}

/// Symbolic identifier of a fungible asset. Two assets are the same exactly
/// when their identifiers are equal.
#[derive(Clone, Copy, Debug, Hash, PartialEq, Eq, Structural)]
pub struct Token(pub u64);

/// An immutable two-asset liquidity pool: reserves for each side and a fee
/// in basis points.
#[derive(Clone, Copy, Debug, PartialEq, Eq, Structural)]
pub struct Pool {
    pub token0: Token,
    pub token1: Token,
    pub reserve0: Amount,
    pub reserve1: Amount,
    pub fee_bps: u32,
}

impl Pool {
    /// A pool is well formed when its two assets differ, its reserves are
    /// representable and its fee is below `10^4` basis points.
    pub open spec fn wf(self) -> bool {
        &&& self.token0 != self.token1
        &&& self.reserve0.wf()
        &&& self.reserve1.wf()
        &&& self.fee_bps < 10000
    }

    /// Whether the pool touches asset `t`.
    pub open spec fn touches(self, t: Token) -> bool {
        t == self.token0 || t == self.token1
    }

    /// The asset on the other side of the pool from `t`, or `None` when the
    /// pool does not touch `t`.
    pub open spec fn spec_other(self, t: Token) -> Option<Token> {
        if t == self.token0 {
            Some(self.token1)
        } else if t == self.token1 {
            Some(self.token0)
        } else {
            None
        }
    }

    /// The constant-product output of this pool for `a` atoms of asset `t`:
    /// `None` when the pool does not touch `t` or when the input-side
    /// reserve is empty (the edge is impassable), otherwise the exact
    /// truncated output in atoms.
    pub open spec fn spec_out(self, t: Token, a: int) -> Option<int> {
        if t == self.token0 {
            if self.reserve0.atoms > 0 {
                Some(
                    amm_out(
                        self.reserve0.atoms as int,
                        self.reserve1.atoms as int,
                        a,
                        self.fee_bps as int,
                    ),
                )
            } else {
                None
            }
        } else if t == self.token1 {
            if self.reserve1.atoms > 0 {
                Some(
                    amm_out(
                        self.reserve1.atoms as int,
                        self.reserve0.atoms as int,
                        a,
                        self.fee_bps as int,
                    ),
                )
            } else {
                None
            }
        } else {
            None
        }
    }

    /// Whether the pool can be crossed from asset `t`: it touches `t` and
    /// holds reserve on that side. Exactly when this holds, `spec_out`
    /// pays out, whatever the input amount.
    pub open spec fn passable_from(self, t: Token) -> bool {
        ||| (t == self.token0 && self.reserve0.atoms > 0)
        ||| (t == self.token1 && self.reserve1.atoms > 0)
    }

    /// Whether the pool connects assets `a` and `b`, in either orientation.
    pub fn supports(&self, a: &Token, b: &Token) -> (r: bool)
        ensures
            r == ((a == self.token0 && b == self.token1) || (a == self.token1 && b
                == self.token0)),
    {
        (a.0 == self.token0.0 && b.0 == self.token1.0) || (a.0 == self.token1.0 && b.0
            == self.token0.0)
    }

    /// The output amount this pool pays for `input_amount` of
    /// `input_token`, or `None` when the asset is not one of the pool's two
    /// or the input-side reserve is empty.
    pub fn get_output_amount(&self, input_token: &Token, input_amount: Amount) -> (r: Option<
        Amount,
    >)
        requires
            self.wf(),
            input_amount.wf(),
        ensures
            match r {
                Some(out) => {
                    &&& self.spec_out(*input_token, input_amount.atoms as int) == Some(
                        out.atoms as int,
                    )
                    &&& out.wf()
                },
                None => self.spec_out(*input_token, input_amount.atoms as int) is None,
            },
    {
        let (reserve_in, reserve_out) = if input_token.0 == self.token0.0 {
            (self.reserve0, self.reserve1)
        } else if input_token.0 == self.token1.0 {
            (self.reserve1, self.reserve0)
        } else {
            return None;
        };
        if reserve_in.atoms == 0 {
            return None;
        }
        let out = amm_out_atoms(
            reserve_in.atoms,
            reserve_out.atoms,
            input_amount.atoms,
            self.fee_bps,
        );
        Some(Amount { atoms: out })
    }

    /// The asset on the other side of the pool from `token`.
    pub fn get_other_token(&self, token: &Token) -> (r: Option<Token>)
        ensures
            r == self.spec_other(*token),
    {
        if token.0 == self.token0.0 {
            Some(self.token1)
        } else if token.0 == self.token1.0 {
            Some(self.token0)
        } else {
            None
        }
    }
}

/// One executed edge traversal: the pool used and the direction it was
/// crossed in.
#[derive(Clone, Copy, Debug, PartialEq, Eq, Structural)]
pub struct SwapStep {
    pub from: Token,
    pub to: Token,
    pub pool: Pool,
}

/// A chain of swap steps together with the exact amount the chain pays out.
#[derive(Clone, Debug, PartialEq, Eq)]
pub struct Route {
    pub steps: Vec<SwapStep>,
    pub output_amount: Amount,
}

/// An element-by-element copy of a vector of plain values.
pub(crate) fn copy_vec<T: Copy>(v: &Vec<T>) -> (r: Vec<T>)
    ensures
        r@ == v@,
{
    let mut r: Vec<T> = Vec::new();
    let n = v.len();
    let mut i: usize = 0;
    while i < n
        invariant
            n == v@.len(),
            i <= n,
            r@ == v@.subrange(0, i as int),
        decreases n - i,
    {
        r.push(v[i]);
        proof {
            assert(r@ =~= v@.subrange(0, i + 1));
        }
        i += 1;
    }
    proof {
        assert(v@.subrange(0, n as int) =~= v@);
    }
    r
}

/// Whether the list holds the given asset.
pub(crate) fn contains_token(v: &Vec<Token>, t: &Token) -> (r: bool)
    ensures
        r == v@.contains(*t),
{
    let n = v.len();
    let mut i: usize = 0;
    while i < n
        invariant
            n == v@.len(),
            i <= n,
            forall|k: int| 0 <= k < i ==> v@[k] != *t,
        decreases n - i,
    {
        if v[i].0 == t.0 {
            proof {
                assert(v@[i as int] == *t);
            }
            return true;
        }
        i += 1;
    }
    false
}

/// A fee in basis points.
#[derive(Clone, Copy, Debug, PartialEq, Eq, Structural)]
pub struct FeeParams {
    pub fee_bps: u32,
}

/// A slippage tolerance in basis points. Advisory only: no strategy
/// enforces it, a caller wanting a hard guarantee must check the output
/// itself.
#[derive(Clone, Copy, Debug, PartialEq, Eq, Structural)]
pub struct Slippage {
    pub tolerance_bps: u32,
}

/// Which search strategy produced, or should produce, a route.
#[derive(Clone, Copy, Debug, PartialEq, Eq, Structural)]
pub enum RoutingAlgo {
    BestDirect,
    Bfs,
    Dfs,
    Dijkstra,
    AStar,
    Auto,
}

/// Parameters of one route query: the strategy to run, the advisory
/// slippage tolerance, and the bound on the number of hops.
#[derive(Clone, Copy, Debug, PartialEq, Eq, Structural)]
pub struct ExecutionParams {
    pub algo: RoutingAlgo,
    pub slippage: Slippage,
    pub max_hops: usize,
}

} // verus!
