//! The pool graph: which pools touch which asset.

use vstd::prelude::*;

use std::collections::HashMap;

use rayon::iter::IntoParallelRefIterator;
use rayon::iter::ParallelIterator;

use crate::types::{Pool, Token};

verus! {

broadcast use vstd::std_specs::hash::group_hash_axioms;

/// The pools of `pools` that touch asset `t`, in their order in `pools`.
pub open spec fn touching(pools: Seq<Pool>, t: Token) -> Seq<Pool>
    decreases pools.len(),
{
    if pools.len() == 0 {
        Seq::empty()
    } else {
        let rest = touching(pools.drop_last(), t);
        if pools.last().touches(t) {
            rest.push(pools.last())
        } else {
            rest
        }
    }
}

/// The adjacency list of an asset holds pools of the graph, all touching
/// that asset, and no more of them than there are pools.
pub proof fn lemma_touching_props(pools: Seq<Pool>, t: Token)
    ensures
        touching(pools, t).len() <= pools.len(),
        forall|j: int|
            0 <= j < touching(pools, t).len() ==> pools.contains(
                #[trigger] touching(pools, t)[j],
            ) && touching(pools, t)[j].touches(t),
    decreases pools.len(),
{
    if pools.len() > 0 {
        let shorter = pools.drop_last();
        lemma_touching_props(shorter, t);
        assert(forall|j: int|
            0 <= j < shorter.len() && shorter.contains(#[trigger] shorter[j]) ==> pools.contains(
                shorter[j],
            )) by {
            assert(forall|j: int| 0 <= j < shorter.len() ==> shorter[j] == pools[j]);
        }
        assert(forall|j: int|
            0 <= j < touching(shorter, t).len() ==> pools.contains(
                #[trigger] touching(shorter, t)[j],
            ));
        if pools.last().touches(t) {
            assert(pools.contains(pools.last())) by {
                assert(pools[pools.len() - 1] == pools.last());
            }
        }
    }
}

/// Every pool of the list that touches `t` appears in the adjacency list
/// of `t`.
pub proof fn lemma_touching_complete(pools: Seq<Pool>, t: Token, p: Pool)
    requires
        pools.contains(p),
        p.touches(t),
    ensures
        touching(pools, t).contains(p),
    decreases pools.len(),
{
    let shorter = pools.drop_last();
    if pools.last() == p {
        if p.touches(t) {
            assert(touching(pools, t).last() == p);
            assert(touching(pools, t).contains(p)) by {
                assert(touching(pools, t)[touching(pools, t).len() - 1] == p);
            }
        }
    } else {
        let i = choose|i: int| 0 <= i < pools.len() && pools[i] == p;
        assert(shorter[i] == p);
        assert(shorter.contains(p));
        lemma_touching_complete(shorter, t, p);
        let j = choose|j: int| 0 <= j < touching(shorter, t).len() && touching(shorter, t)[j] == p;
        if pools.last().touches(t) {
            assert(touching(pools, t)[j] == p);
        } else {
            assert(touching(pools, t)[j] == p);
        }
        assert(touching(pools, t).contains(p));
    }
}

/// Appending one pool extends exactly the adjacency lists of the two assets
/// it touches.
pub proof fn lemma_touching_push(pools: Seq<Pool>, p: Pool)
    ensures
        forall|t: Token| #[trigger]
            touching(pools.push(p), t) == if p.touches(t) {
                touching(pools, t).push(p)
            } else {
                touching(pools, t)
            },
{
    assert forall|t: Token| #[trigger]
        touching(pools.push(p), t) == if p.touches(t) {
            touching(pools, t).push(p)
        } else {
            touching(pools, t)
        } by {
        assert(pools.push(p).drop_last() =~= pools);
        assert(pools.push(p).last() == p);
    }
}

/// Adjacency structure mapping an asset to the pools that touch it.
pub struct Graph {
    /// All pools of the graph, in construction order.
    pub pools: Vec<Pool>,
    /// For each asset with at least one pool, the pools touching it.
    pub adjacency: HashMap<u64, Vec<Pool>>,
    /// The assets with at least one pool, in order of first appearance.
    pub token_list: Vec<Token>,
}

impl Graph {
    /// The graph is well formed: every pool is well formed, every asset's
    /// adjacency list holds exactly the pools touching it, and the token
    /// list enumerates the adjacency keys once each.
    pub open spec fn wf(self) -> bool {
        &&& forall|i: int| 0 <= i < self.pools@.len() ==> (#[trigger] self.pools@[i]).wf()
        &&& forall|t: u64|
            self.adjacency@.contains_key(t) ==> (#[trigger] self.adjacency@[t])@ == touching(
                self.pools@,
                Token(t),
            )
        &&& forall|t: u64|
            !self.adjacency@.contains_key(t) ==> (#[trigger] touching(self.pools@, Token(t))).len()
                == 0
        &&& forall|i: int, j: int|
            0 <= i < j < self.token_list@.len() ==> self.token_list@[i] != self.token_list@[j]
        &&& forall|i: int|
            0 <= i < self.token_list@.len() ==> self.adjacency@.contains_key(
                (#[trigger] self.token_list@[i]).0,
            )
        &&& forall|t: u64|
            #[trigger] self.adjacency@.contains_key(t) ==> self.token_list@.contains(Token(t))
    }

    /// Builds the graph of `pools`: each pool is linked into the adjacency
    /// lists of both its assets.
    pub fn new(pools: &[Pool]) -> (g: Graph)
        requires
            forall|i: int| 0 <= i < pools@.len() ==> (#[trigger] pools@[i]).wf(),
        ensures
            g.wf(),
            g.pools@ == pools@,
    {
        let mut adjacency: HashMap<u64, Vec<Pool>> = HashMap::new();
        let mut token_list: Vec<Token> = Vec::new();
        let mut own: Vec<Pool> = Vec::new();
        let n = pools.len();
        let mut i: usize = 0;
        while i < n
            invariant
                n == pools@.len(),
                i <= n,
                own@ == pools@.subrange(0, i as int),
                forall|k: int| 0 <= k < pools@.len() ==> (#[trigger] pools@[k]).wf(),
                forall|t: u64|
                    adjacency@.contains_key(t) ==> (#[trigger] adjacency@[t])@ == touching(
                        own@,
                        Token(t),
                    ),
                forall|t: u64|
                    !adjacency@.contains_key(t) ==> (#[trigger] touching(own@, Token(t))).len() == 0,
                forall|a: int, b: int|
                    0 <= a < b < token_list@.len() ==> token_list@[a] != token_list@[b],
                forall|a: int|
                    0 <= a < token_list@.len() ==> adjacency@.contains_key(
                        (#[trigger] token_list@[a]).0,
                    ),
                forall|t: u64|
                    #[trigger] adjacency@.contains_key(t) ==> token_list@.contains(Token(t)),
            decreases n - i,
        {
            let p = pools[i];
            let ghost prev = own@;
            own.push(p);
            proof {
                assert(own@ =~= pools@.subrange(0, i + 1));
                lemma_touching_push(prev, p);
            }
            let ghost tl0 = token_list@;
            let ghost adj0 = adjacency@;
            add_pool_to(&mut adjacency, &mut token_list, p.token0, p);
            let ghost tl1 = token_list@;
            let ghost adj1 = adjacency@;
            add_pool_to(&mut adjacency, &mut token_list, p.token1, p);
            proof {
                assert(p.token0.0 != p.token1.0);
                assert(Token(p.token0.0) == p.token0);
                assert(Token(p.token1.0) == p.token1);
                assert forall|t: u64| #[trigger]
                    adjacency@.contains_key(t) implies token_list@.contains(Token(t)) by {
                    if t == p.token1.0 {
                        if adj1.contains_key(t) {
                            // the asset was already registered before this pool
                            assert(adj0.contains_key(t));
                            assert(tl0.contains(Token(t)));
                            lemma_contains_after_push(tl0, p.token0, Token(t));
                            lemma_contains_after_push(tl1, p.token1, Token(t));
                        } else {
                            lemma_contains_after_push(tl1, p.token1, Token(t));
                        }
                    } else if t == p.token0.0 {
                        if adj0.contains_key(t) {
                            assert(tl0.contains(Token(t)));
                            lemma_contains_after_push(tl0, p.token0, Token(t));
                        } else {
                            lemma_contains_after_push(tl0, p.token0, Token(t));
                        }
                        lemma_contains_after_push(tl1, p.token1, Token(t));
                    } else {
                        assert(adj0.contains_key(t));
                        assert(tl0.contains(Token(t)));
                        lemma_contains_after_push(tl0, p.token0, Token(t));
                        lemma_contains_after_push(tl1, p.token1, Token(t));
                    }
                }
            }
            i += 1;
        }
        proof {
            assert(own@ =~= pools@);
        }
        Graph { pools: own, adjacency, token_list }
    }

    /// One entry per pool touching `token`, each paired with the asset on
    /// the pool's other side, in adjacency-list order.
    pub fn neighbors(&self, token: &Token) -> (r: Vec<(Token, Pool)>)
        requires
            self.wf(),
        ensures
            r@.len() == touching(self.pools@, *token).len(),
            forall|j: int|
                0 <= j < r@.len() ==> {
                    let p = touching(self.pools@, *token)[j];
                    #[trigger] r@[j] == (p.spec_other(*token)->Some_0, p)
                },
    {
        let list = match self.adjacency.get(&token.0) {
            Some(l) => l,
            None => {
                return Vec::new();
            },
        };
        proof {
            lemma_touching_props(self.pools@, *token);
        }
        let others = par_other_tokens(list, token);
        let mut r: Vec<(Token, Pool)> = Vec::new();
        let n = list.len();
        let mut j: usize = 0;
        while j < n
            invariant
                n == list@.len(),
                j <= n,
                list@ == touching(self.pools@, *token),
                others@.len() == list@.len(),
                forall|k: int|
                    0 <= k < list@.len() ==> #[trigger] others@[k] == list@[k].spec_other(*token),
                forall|k: int|
                    0 <= k < list@.len() ==> (#[trigger] list@[k]).touches(*token),
                r@.len() == j,
                forall|k: int|
                    0 <= k < j ==> {
                        let p = touching(self.pools@, *token)[k];
                        #[trigger] r@[k] == (p.spec_other(*token)->Some_0, p)
                    },
            decreases n - j,
        {
            let other = others[j].unwrap();
            r.push((other, list[j]));
            j += 1;
        }
        r
    }

    /// All assets present in the graph, each once, in order of first
    /// appearance.
    pub fn tokens(&self) -> (r: Vec<Token>)
        requires
            self.wf(),
        ensures
            r@ == self.token_list@,
            forall|a: int, b: int| 0 <= a < b < r@.len() ==> r@[a] != r@[b],
            forall|t: u64| r@.contains(Token(t)) <==> self.adjacency@.contains_key(t),
    {
        let mut r: Vec<Token> = Vec::new();
        let n = self.token_list.len();
        let mut i: usize = 0;
        while i < n
            invariant
                n == self.token_list@.len(),
                i <= n,
                r@ == self.token_list@.subrange(0, i as int),
            decreases n - i,
        {
            r.push(self.token_list[i]);
            proof {
                assert(r@ =~= self.token_list@.subrange(0, i + 1));
            }
            i += 1;
        }
        proof {
            assert(r@ =~= self.token_list@);
            assert forall|t: u64|
                r@.contains(Token(t)) <==> self.adjacency@.contains_key(t) by {
                if self.adjacency@.contains_key(t) {
                    assert(self.token_list@.contains(Token(t)));
                }
                if r@.contains(Token(t)) {
                    let k = choose|k: int| 0 <= k < r@.len() && r@[k] == Token(t);
                    assert(self.adjacency@.contains_key(r@[k].0));
                }
            }
        }
        r
    }
}

/// An element stays in a sequence when another is pushed, and the pushed
/// element is in the result.
proof fn lemma_contains_after_push<T>(s: Seq<T>, x: T, y: T)
    ensures
        s.contains(y) ==> s.push(x).contains(y),
        s.push(x).contains(x),
{
    if s.contains(y) {
        let k = choose|k: int| 0 <= k < s.len() && s[k] == y;
        assert(s.push(x)[k] == y);
    }
    assert(s.push(x)[s.len() as int] == x);
}

/// Links pool `p` into the adjacency list of asset `t`, registering the
/// asset on first sight.
fn add_pool_to(
    adjacency: &mut HashMap<u64, Vec<Pool>>,
    token_list: &mut Vec<Token>,
    t: Token,
    p: Pool,
) -> (nothing: ())
    ensures
        final(adjacency)@.contains_key(t.0),
        final(adjacency)@[t.0]@ == (if old(adjacency)@.contains_key(t.0) {
            old(adjacency)@[t.0]@
        } else {
            Seq::<Pool>::empty()
        }).push(p),
        forall|k: u64|
            k != t.0 ==> final(adjacency)@.contains_key(k) == old(
                adjacency,
            )@.contains_key(k),
        forall|k: u64|
            k != t.0 && old(adjacency)@.contains_key(k) ==> final(adjacency)@[k] == old(
                adjacency,
            )@[k],
        old(adjacency)@.contains_key(t.0) ==> final(token_list)@ == old(token_list)@,
        !old(adjacency)@.contains_key(t.0) ==> final(token_list)@ == old(token_list)@.push(t),
{
    let mut v: Vec<Pool> = match adjacency.remove(&t.0) {
        Some(v) => v,
        None => {
            token_list.push(t);
            Vec::new()
        },
    };
    v.push(p);
    adjacency.insert(t.0, v);
}

/// Relies on rayon's parallel iteration over a `Vec`:
/// `par_iter().map(..).collect()` applies the closure to every element and
/// collects the results into a `Vec` in the input's order (rayon's
/// parallel iterator over a slice is indexed, and collecting an indexed
/// parallel iterator preserves that order). The closure only calls the
/// verified `Pool::get_other_token`, whose contract gives each element of
/// the result.
#[verifier::external_body]
fn par_other_tokens(pools: &Vec<Pool>, token: &Token) -> (r: Vec<Option<Token>>)
    ensures
        r@.len() == pools@.len(),
        forall|i: int| 0 <= i < pools@.len() ==> #[trigger] r@[i] == pools@[i].spec_other(*token),
{
    pools.par_iter().map(|p| p.get_other_token(token)).collect()
}

} // verus!
