//! The arbitrager: a frozen snapshot of pools, and the bounded exhaustive search for
//! cycles of trades that start and end at one token and bring back more than was put in.

use crate::address::Address;
use crate::graph::PoolGraph;
use crate::pool::PoolOperations;
use crate::registry::{registered, TokenRegistry};
use vstd::prelude::*;

verus! {

/// The longest cycle the search walks, in trades.
pub const MAX_HOPS: usize = 3;

/// What the arbitrager keeps of a pool beside the pool itself: its identity and the indices
/// of its two tokens, in the pool's own order.
#[derive(Debug, Clone, Copy)]
pub struct PoolRecord {
    pub id: Address,
    pub token_a: usize,
    pub token_b: usize,
}

/// The snapshot that a search walks: the tokens, the pools, and which pools trade which
/// tokens. It is built pool by pool and then only read.
pub struct Arbitrager<P: PoolOperations> {
    pub(crate) token_mints: TokenRegistry,
    pub(crate) graph: PoolGraph,
    pub(crate) pools: Vec<P>,
    pub(crate) records: Vec<PoolRecord>,
}

impl<P: PoolOperations> Arbitrager<P> {
    /// The identities of the tokens, in index order.
    pub open(crate) spec fn spec_token_mints(&self) -> Seq<Address> {
        self.token_mints@
    }

    /// The pools in the order of their arrival: the handle of a pool is its place here.
    pub open(crate) spec fn spec_pools(&self) -> Seq<P> {
        self.pools@
    }

    /// What is kept of each pool, by handle.
    pub open(crate) spec fn spec_records(&self) -> Seq<PoolRecord> {
        self.records@
    }

    /// The tokens that `src` can be traded against, in the order in which they first
    /// appeared beside it.
    pub open(crate) spec fn spec_neighbors(&self, src: usize) -> Seq<usize> {
        self.graph.spec_neighbors(src)
    }

    /// The handles of the pools that trade `src` against `dst`, in the order of arrival.
    pub open(crate) spec fn spec_pools_between(&self, src: usize, dst: usize) -> Seq<usize> {
        self.graph.spec_pools_between(src, dst)
    }

    /// Whether a pool with identity `id` is held.
    pub open(crate) spec fn holds_id(&self, id: Address) -> bool {
        exists|h: int| 0 <= h < self.records@.len() && (#[trigger] self.records@[h]).id == id
    }

    /// Each token has one index and each pool identity one handle; the graph has the
    /// registry's tokens as nodes; and every pool stands in the graph, between its own
    /// two tokens and nowhere else.
    pub open(crate) spec fn wf(&self) -> bool {
        &&& self.token_mints.wf()
        &&& self.graph.wf()
        &&& self.graph.spec_tokens() == self.token_mints@.len()
        &&& self.pools@.len() == self.records@.len()
        &&& forall|g: int, h: int|
            0 <= g < h < self.records@.len() ==> (#[trigger] self.records@[g]).id != (
            #[trigger] self.records@[h]).id
        &&& forall|src: usize, dst: usize, k: int|
            0 <= k < self.graph.spec_pools_between(src, dst).len() ==> self.stands_between(
                #[trigger] self.graph.spec_pools_between(src, dst)[k],
                src,
                dst,
            )
        &&& forall|h: int|
            0 <= h < self.records@.len() ==> self.graph.spec_pools_between(
                (#[trigger] self.records@[h]).token_a,
                self.records@[h].token_b,
            ).contains(h as usize)
    }

    /// Whether `pool` is the handle of a pool whose two tokens are `src` and `dst`.
    pub open(crate) spec fn stands_between(&self, pool: usize, src: usize, dst: usize) -> bool {
        &&& pool < self.records@.len()
        &&& {
            let record = self.records@[pool as int];
            ||| record.token_a == src && record.token_b == dst
            ||| record.token_a == dst && record.token_b == src
        }
    }

    /// The arbitrager without tokens and pools.
    pub fn new() -> (arbitrager: Arbitrager<P>)
        ensures
            arbitrager.wf(),
            arbitrager.spec_token_mints() == Seq::<Address>::empty(),
            arbitrager.spec_pools() == Seq::<P>::empty(),
            arbitrager.spec_records() == Seq::<PoolRecord>::empty(),
            forall|src: usize| #[trigger] arbitrager.spec_neighbors(src) == Seq::<usize>::empty(),
            forall|src: usize, dst: usize| #[trigger]
                arbitrager.spec_pools_between(src, dst) == Seq::<usize>::empty(),
    {
        Arbitrager {
            token_mints: TokenRegistry::new(),
            graph: PoolGraph::new(),
            pools: Vec::new(),
            records: Vec::new(),
        }
    }

    /// The handle of the pool with identity `id`, if one is held.
    pub fn handle_of(&self, id: &Address) -> (found: Option<usize>)
        ensures
            match found {
                Some(h) => h < self.spec_records().len() && self.spec_records()[h as int].id == *id,
                None => !self.holds_id(*id),
            },
    {
        let mut h: usize = 0;
        while h < self.records.len()
            invariant
                h <= self.records.len(),
                forall|g: int| 0 <= g < h ==> self.records[g].id != *id,
            decreases self.records.len() - h,
        {
            if self.records[h].id == *id {
                return Some(h);
            }
            h += 1;
        }
        None
    }

    /// Whether `after` is `self` with `pool` taken in under the identity `id`, trading
    /// `mint_a` against `mint_b`: the two tokens have indices, the first free ones where
    /// they were new; the pool has the next handle; and it stands behind the pools of its
    /// pair, seen from either token. Where a pool with that identity was held already,
    /// nothing has changed.
    pub open(crate) spec fn took_in(
        &self,
        after: &Arbitrager<P>,
        pool: P,
        id: Address,
        mint_a: Address,
        mint_b: Address,
    ) -> bool {
        if self.holds_id(id) {
            &&& after.spec_token_mints() == self.spec_token_mints()
            &&& after.spec_pools() == self.spec_pools()
            &&& after.spec_records() == self.spec_records()
            &&& forall|src: usize| #[trigger] after.spec_neighbors(src) == self.spec_neighbors(src)
            &&& forall|src: usize, dst: usize| #[trigger]
                after.spec_pools_between(src, dst) == self.spec_pools_between(src, dst)
        } else {
            let mints = registered(registered(self.spec_token_mints(), mint_a), mint_b);
            let token_a = mints.index_of(mint_a) as usize;
            let token_b = mints.index_of(mint_b) as usize;
            let handle = self.spec_pools().len() as usize;
            &&& after.spec_token_mints() == mints
            &&& after.spec_pools() == self.spec_pools().push(pool)
            &&& after.spec_records() == self.spec_records().push(
                PoolRecord { id, token_a, token_b },
            )
            &&& forall|src: usize| #[trigger]
                after.spec_neighbors(src) == self.graph.with_neighbor(token_a, token_b, src)
            &&& forall|src: usize, dst: usize| #[trigger]
                after.spec_pools_between(src, dst) == self.graph.with_pool(
                    token_a,
                    token_b,
                    handle,
                    src,
                    dst,
                )
        }
    }

    /// Takes `pool` in under the identity `id`, trading `mint_a` against `mint_b`, and gives
    /// its handle; a pool whose identity is held already is dropped, and the handle is that
    /// of the pool that was there first.
    pub fn insert_pool(
        &mut self,
        pool: P,
        id: Address,
        mint_a: Address,
        mint_b: Address,
    ) -> (handle: usize)
        requires
            old(self).wf(),
        ensures
            final(self).wf(),
            old(self).took_in(final(self), pool, id, mint_a, mint_b),
            handle < final(self).spec_records().len(),
            final(self).spec_records()[handle as int].id == id,
    {
        match self.handle_of(&id) {
            Some(h) => h,
            None => {
                let ghost mints = registered(registered(old(self).token_mints@, mint_a), mint_b);
                let token_a = self.token_mints.get_or_create(mint_a);
                let token_b = self.token_mints.get_or_create(mint_b);
                proof {
                    assert(mints == self.token_mints@);
                    assert(mints[token_a as int] == mint_a);
                    assert(mints.contains(mint_a));
                    assert(mints.contains(mint_b));
                    assert(mints.index_of(mint_a) == token_a);
                    assert(mints.index_of(mint_b) == token_b);
                    assert(self.token_mints.mints.len() <= usize::MAX);
                }
                let handle = self.pools.len();
                self.pools.push(pool);
                self.records.push(PoolRecord { id, token_a, token_b });
                self.graph.add_pool(token_a, token_b, handle);
                proof {
                    assert forall|g: int, h: int| 0 <= g < h < self.records@.len() implies (
                    #[trigger] self.records@[g]).id != (#[trigger] self.records@[h]).id by {
                        if h == handle {
                            assert(old(self).records@[g].id != id);
                        }
                    }
                    assert forall|src: usize, dst: usize, k: int|
                        0 <= k < self.graph.spec_pools_between(src, dst).len()
                        implies self.stands_between(
                        #[trigger] self.graph.spec_pools_between(src, dst)[k],
                        src,
                        dst,
                    ) by {
                        let was = old(self).graph.spec_pools_between(src, dst);
                        if k < was.len() {
                            assert(old(self).stands_between(was[k], src, dst));
                        }
                    }
                    assert forall|h: int| 0 <= h < self.records@.len() implies self.graph.spec_pools_between(
                        (#[trigger] self.records@[h]).token_a,
                        self.records@[h].token_b,
                    ).contains(h as usize) by {
                        let record = self.records@[h];
                        let was = old(self).graph.spec_pools_between(record.token_a, record.token_b);
                        let now = self.graph.spec_pools_between(record.token_a, record.token_b);
                        if h < old(self).records@.len() {
                            assert(old(self).records@[h] == record);
                            let k = choose|k: int| 0 <= k < was.len() && was[k] == h as usize;
                            assert(now[k] == h as usize);
                        } else {
                            if was.contains(handle) {
                                let k = choose|k: int| 0 <= k < was.len() && was[k] == handle;
                                assert(now[k] == handle);
                            } else {
                                assert(now[was.len() as int] == handle);
                            }
                        }
                    }
                }
                handle
            },
        }
    }

    /// Takes `pool` in under the identity and the tokens that it names itself, and gives its
    /// handle; a pool whose identity is held already is dropped, and the handle is that of
    /// the pool that was there first.
    pub fn add_pool(&mut self, pool: P) -> (handle: usize)
        requires
            old(self).wf(),
        ensures
            final(self).wf(),
            old(self).took_in(final(self), pool, pool.id(), pool.mints().0, pool.mints().1),
            handle < final(self).spec_records().len(),
            final(self).spec_records()[handle as int].id == pool.id(),
    {
        let id = pool.get_pool_id();
        let (mint_a, mint_b) = pool.get_mints();
        self.insert_pool(pool, id, mint_a, mint_b)
    }

    /// How many tokens the snapshot holds.
    pub fn token_count(&self) -> (n: usize)
        ensures
            n == self.spec_token_mints().len(),
    {
        self.token_mints.len()
    }

    /// How many pools the snapshot holds.
    pub fn pool_count(&self) -> (n: usize)
        ensures
            n == self.spec_pools().len(),
    {
        self.pools.len()
    }

    /// The identity of the token with index `token`, if there is one.
    pub fn token_mint(&self, token: usize) -> (mint: Option<Address>)
        ensures
            mint == if token < self.spec_token_mints().len() {
                Some(self.spec_token_mints()[token as int])
            } else {
                None
            },
    {
        self.token_mints.index_to_identity(token)
    }

    /// The index of the token with identity `mint`, if the snapshot holds it.
    pub fn token_index(&self, mint: &Address) -> (token: Option<usize>)
        ensures
            match token {
                Some(i) => i < self.spec_token_mints().len() && self.spec_token_mints()[i as int]
                    == *mint,
                None => !self.spec_token_mints().contains(*mint),
            },
    {
        self.token_mints.index_of(mint)
    }

    /// What is kept of the pool with handle `pool`, if there is one.
    pub fn pool_record(&self, pool: usize) -> (record: Option<PoolRecord>)
        ensures
            record == if pool < self.spec_records().len() {
                Some(self.spec_records()[pool as int])
            } else {
                None
            },
    {
        if pool < self.records.len() {
            Some(self.records[pool])
        } else {
            None
        }
    }

    /// The pool with handle `pool`, if there is one.
    pub fn pool(&self, pool: usize) -> (held: Option<&P>)
        ensures
            held == if pool < self.spec_pools().len() {
                Some(&self.spec_pools()[pool as int])
            } else {
                None
            },
    {
        if pool < self.pools.len() {
            Some(&self.pools[pool])
        } else {
            None
        }
    }

    /// The tokens that `token` can be traded against, in the order in which they first
    /// appeared beside it.
    pub fn neighbors(&self, token: usize) -> (dsts: Vec<usize>)
        ensures
            dsts@ == self.spec_neighbors(token),
    {
        self.graph.neighbors(token)
    }

    /// The handles of the pools that trade `src` against `dst`, in the order of arrival.
    pub fn pools_between(&self, src: usize, dst: usize) -> (pools: Vec<usize>)
        requires
            self.wf(),
        ensures
            pools@ == self.spec_pools_between(src, dst),
    {
        self.graph.pools_between(src, dst)
    }
}

} // verus!
