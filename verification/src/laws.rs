//! What holds of every search, whatever the snapshot and whatever the pools answer.

use crate::address::Address;
use crate::arb::{Arbitrager, MAX_HOPS};
use crate::pool::{PoolOperations, NO_QUOTE};
use crate::search::{
    hops_left, Cycle, PricingFailure, SearchError, SearchParams, SearchReport, SearchState,
};
use vstd::prelude::*;

verus! {

/// Whether `later` goes on from `earlier`: no pool has left the quarantine, and the finds
/// and the failures of `earlier` stand first and unchanged among those of `later`.
pub open spec fn goes_on_from(later: SearchState, earlier: SearchState) -> bool {
    &&& earlier.quarantine.subset_of(later.quarantine)
    &&& earlier.found.len() <= later.found.len()
    &&& forall|i: int| 0 <= i < earlier.found.len() ==> later.found[i] == earlier.found[i]
    &&& earlier.failures.len() <= later.failures.len()
    &&& forall|i: int|
        0 <= i < earlier.failures.len() ==> later.failures[i] == earlier.failures[i]
}

/// Whether the failures from the place `from` on are of pools that were not quarantined at
/// the outset, are in the quarantine now, and failed once each.
pub open spec fn failed_once_each(outset: Set<Address>, st: SearchState, from: int) -> bool {
    &&& forall|i: int|
        from <= i < st.failures.len() ==> !outset.contains((#[trigger] st.failures[i]).pool)
            && st.quarantine.contains(st.failures[i].pool)
    &&& forall|i: int, j: int|
        from <= i < j < st.failures.len() ==> (#[trigger] st.failures[i]).pool != (
        #[trigger] st.failures[j]).pool
}

/// Whether a path and the pools traded in along it are what a walk from the start token
/// can hold: the start token first, no token twice, one pool for each trade, no pool twice.
pub open spec fn path_state_wf(q: SearchParams, path: Seq<usize>, pool_path: Seq<Address>) -> bool {
    &&& 1 <= path.len()
    &&& path[0] == q.start
    &&& path.no_duplicates()
    &&& pool_path.len() == path.len() - 1
    &&& pool_path.no_duplicates()
}

impl<P: PoolOperations> Arbitrager<P> {
    /// The handle of the pool with the identity `id`.
    pub open spec fn handle_by_id(&self, id: Address) -> int {
        choose|h: int|
            0 <= h < self.spec_records().len() && (#[trigger] self.spec_records()[h]).id == id
    }

    /// What a walk has in hand at its end: it starts at the first token of `path` with the
    /// initial amount, and trades at each step in the pool of `pool_path` for what that pool
    /// pays out, in the direction that the pool's own order of tokens gives. There is no
    /// such amount where the path holds no token, where the pools are not one for each
    /// step, where a pool is not held or does not trade the two tokens of its step, or
    /// where a pool has no price for what it is offered.
    pub open spec fn walk_value(
        &self,
        q: SearchParams,
        path: Seq<usize>,
        pool_path: Seq<Address>,
    ) -> Option<u64>
        decreases path.len(),
    {
        if path.len() == 0 || pool_path.len() != path.len() - 1 {
            None
        } else if path.len() == 1 {
            Some(q.initial_amount)
        } else {
            let src = path[path.len() - 2];
            let dst = path.last();
            let id = pool_path.last();
            let pool = self.handle_by_id(id);
            match self.walk_value(q, path.drop_last(), pool_path.drop_last()) {
                None => None,
                Some(balance) => {
                    if self.holds_id(id) && self.spec_pools_between(src, dst).contains(
                        pool as usize,
                    ) {
                        let record = self.spec_records()[pool];
                        let paid = self.spec_pools()[pool].quote(record.token_a == src, balance);
                        if paid == NO_QUOTE {
                            None
                        } else {
                            Some(paid)
                        }
                    } else {
                        None
                    }
                },
            }
        }
    }

    /// Whether `cycle` is a sound answer to `q`: a closed walk from the start token of at
    /// most `q.max_hops` trades that meets no other token twice and no pool twice, goes
    /// through pools that trade the tokens of their steps, and brings back what those
    /// pools pay out, which is more than the threshold over what was put in.
    pub open spec fn sound_cycle(&self, q: SearchParams, cycle: Cycle) -> bool {
        &&& 2 <= cycle.token_path.len() <= q.max_hops + 1
        &&& cycle.token_path.first() == q.start
        &&& cycle.token_path.last() == q.start
        &&& cycle.token_path.drop_last().no_duplicates()
        &&& cycle.pool_path.len() == cycle.token_path.len() - 1
        &&& cycle.pool_path.no_duplicates()
        &&& cycle.initial_amount == q.initial_amount
        &&& cycle.final_amount > q.initial_amount + q.profit_threshold
        &&& cycle.profit == cycle.final_amount - cycle.initial_amount
        &&& self.walk_value(q, cycle.token_path, cycle.pool_path) == Some(cycle.final_amount)
    }

    /// Whether every find is a sound answer to `q`.
    pub open spec fn all_sound(&self, q: SearchParams, found: Seq<Cycle>) -> bool {
        forall|i: int| 0 <= i < found.len() ==> self.sound_cycle(q, #[trigger] found[i])
    }

    /// Whether the walk along `path` through the pools of `pool_path` is one that the
    /// search can be on with `balance` in hand.
    pub open spec fn on_a_walk(
        &self,
        q: SearchParams,
        path: Seq<usize>,
        pool_path: Seq<Address>,
        balance: u64,
    ) -> bool {
        &&& self.wf()
        &&& path_state_wf(q, path, pool_path)
        &&& self.walk_value(q, path, pool_path) == Some(balance)
    }

    /// One more step of a walk: through a pool between its last token and `dst`, for what
    /// the pool pays out.
    pub(crate) proof fn lemma_walk_step(
        &self,
        q: SearchParams,
        path: Seq<usize>,
        pool_path: Seq<Address>,
        balance: u64,
        dst: usize,
        pool: usize,
    )
        requires
            self.wf(),
            path.len() >= 1,
            self.walk_value(q, path, pool_path) == Some(balance),
            self.spec_pools_between(path.last(), dst).contains(pool),
            self.spec_pools()[pool as int].quote(
                self.spec_records()[pool as int].token_a == path.last(),
                balance,
            ) != NO_QUOTE,
        ensures
            self.walk_value(
                q,
                path.push(dst),
                pool_path.push(self.spec_records()[pool as int].id),
            ) == Some(
                self.spec_pools()[pool as int].quote(
                    self.spec_records()[pool as int].token_a == path.last(),
                    balance,
                ),
            ),
    {
        let pools = self.spec_pools_between(path.last(), dst);
        let k = choose|k: int| 0 <= k < pools.len() && pools[k] == pool;
        assert(self.stands_between(pools[k], path.last(), dst));
        let id = self.spec_records()[pool as int].id;
        assert(self.holds_id(id));
        let h = self.handle_by_id(id);
        assert(h == pool) by {
            if h < pool {
                assert(self.spec_records()[h].id != self.spec_records()[pool as int].id);
            } else if pool < h {
                assert(self.spec_records()[pool as int].id != self.spec_records()[h].id);
            }
        }
        let longer = path.push(dst);
        let pools_longer = pool_path.push(id);
        assert(longer.drop_last() =~= path);
        assert(pools_longer.drop_last() =~= pool_path);
        assert(longer[longer.len() - 2] == path.last());
    }
}

impl<P: PoolOperations> Arbitrager<P> {
    /// Trying a pool only adds to what was gathered, and what it adds to sound finds of a
    /// walk is sound.
    pub(crate) proof fn lemma_settle(
        &self,
        q: SearchParams,
        path: Seq<usize>,
        pool_path: Seq<Address>,
        balance: u64,
        dst: usize,
        pool: usize,
        st: SearchState,
    )
        ensures
            goes_on_from(self.settle(q, path, pool_path, balance, dst, pool, st), st),
            self.on_a_walk(q, path, pool_path, balance) && path.len() <= q.max_hops
                && Self::may_step(q, path, dst) && self.spec_pools_between(
                path.last(),
                dst,
            ).contains(pool) && self.all_sound(q, st.found) ==> self.all_sound(
                q,
                self.settle(q, path, pool_path, balance, dst, pool, st).found,
            ),
        decreases hops_left(q.max_hops, path.len()), 0nat, 0nat,
    {
        let record = self.spec_records()[pool as int];
        let after = self.settle(q, path, pool_path, balance, dst, pool, st);
        if st.quarantine.contains(record.id) || pool_path.contains(record.id) {
        } else {
            let a_to_b = record.token_a == path.last();
            let paid = self.spec_pools()[pool as int].quote(a_to_b, balance);
            if paid == NO_QUOTE {
            } else if dst == q.start {
                if paid > q.initial_amount + q.profit_threshold {
                    if self.on_a_walk(q, path, pool_path, balance) && path.len() <= q.max_hops
                        && self.spec_pools_between(path.last(), dst).contains(pool)
                        && self.all_sound(q, st.found) {
                        let cycle = after.found.last();
                        assert(cycle.token_path.drop_last() =~= path);
                        assert(cycle.token_path.first() == path[0]);
                        lemma_push_keeps_distinct(pool_path, record.id);
                        self.lemma_walk_step(q, path, pool_path, balance, dst, pool);
                        assert forall|i: int| 0 <= i < after.found.len() implies self.sound_cycle(
                            q,
                            #[trigger] after.found[i],
                        ) by {
                            if i < st.found.len() {
                                assert(after.found[i] == st.found[i]);
                            }
                        }
                    }
                }
            } else if 1 <= path.len() < q.max_hops {
                self.lemma_explore(q, path.push(dst), pool_path.push(record.id), paid, st);
                if self.on_a_walk(q, path, pool_path, balance) && Self::may_step(q, path, dst)
                    && self.spec_pools_between(path.last(), dst).contains(pool) {
                    lemma_push_keeps_distinct(path, dst);
                    lemma_push_keeps_distinct(pool_path, record.id);
                    assert(path.push(dst)[0] == path[0]);
                    self.lemma_walk_step(q, path, pool_path, balance, dst, pool);
                }
            }
        }
    }

    /// The same of trying the pools toward one neighbour in turn.
    pub(crate) proof fn lemma_scan_pools(
        &self,
        q: SearchParams,
        path: Seq<usize>,
        pool_path: Seq<Address>,
        balance: u64,
        dst: usize,
        j: nat,
        st: SearchState,
    )
        ensures
            goes_on_from(self.scan_pools(q, path, pool_path, balance, dst, j, st), st),
            self.on_a_walk(q, path, pool_path, balance) && path.len() <= q.max_hops
                && Self::may_step(q, path, dst) && self.all_sound(q, st.found) ==> self.all_sound(
                q,
                self.scan_pools(q, path, pool_path, balance, dst, j, st).found,
            ),
        decreases
            hops_left(q.max_hops, path.len()),
            1nat,
            self.spec_pools_between(path.last(), dst).len() - j,
    {
        let pools = self.spec_pools_between(path.last(), dst);
        if j < pools.len() {
            let after = self.settle(q, path, pool_path, balance, dst, pools[j as int], st);
            assert(pools.contains(pools[j as int]));
            self.lemma_settle(q, path, pool_path, balance, dst, pools[j as int], st);
            self.lemma_scan_pools(q, path, pool_path, balance, dst, j + 1, after);
        }
    }

    /// The same of visiting the neighbours in turn.
    pub(crate) proof fn lemma_scan_neighbors(
        &self,
        q: SearchParams,
        path: Seq<usize>,
        pool_path: Seq<Address>,
        balance: u64,
        k: nat,
        st: SearchState,
    )
        ensures
            goes_on_from(self.scan_neighbors(q, path, pool_path, balance, k, st), st),
            self.on_a_walk(q, path, pool_path, balance) && path.len() <= q.max_hops
                && self.all_sound(q, st.found) ==> self.all_sound(
                q,
                self.scan_neighbors(q, path, pool_path, balance, k, st).found,
            ),
        decreases
            hops_left(q.max_hops, path.len()),
            2nat,
            self.spec_neighbors(path.last()).len() - k,
    {
        let dsts = self.spec_neighbors(path.last());
        if k < dsts.len() {
            let dst = dsts[k as int];
            let after = if Self::may_step(q, path, dst) {
                self.scan_pools(q, path, pool_path, balance, dst, 0, st)
            } else {
                st
            };
            if Self::may_step(q, path, dst) {
                self.lemma_scan_pools(q, path, pool_path, balance, dst, 0, st);
            }
            self.lemma_scan_neighbors(q, path, pool_path, balance, k + 1, after);
        }
    }

    /// A walk only adds to what was gathered, and what it adds to sound finds is sound.
    pub proof fn lemma_explore(
        &self,
        q: SearchParams,
        path: Seq<usize>,
        pool_path: Seq<Address>,
        balance: u64,
        st: SearchState,
    )
        ensures
            goes_on_from(self.explore(q, path, pool_path, balance, st), st),
            self.on_a_walk(q, path, pool_path, balance) && self.all_sound(q, st.found)
                ==> self.all_sound(q, self.explore(q, path, pool_path, balance, st).found),
        decreases hops_left(q.max_hops, path.len()), 3nat, 0nat,
    {
        if 1 <= path.len() <= q.max_hops {
            self.lemma_scan_neighbors(q, path, pool_path, balance, 0, st);
        }
    }
}

impl<P: PoolOperations> Arbitrager<P> {
    /// Every opportunity that a search reports is a cycle through the start token: its
    /// token path begins and ends at the start token, meets no other token twice, and
    /// counts at least two and at most four tokens, the start token at both ends included.
    pub proof fn lemma_reported_cycles_close_at_start(
        &self,
        q: SearchParams,
        quarantine: Set<Address>,
        i: int,
    )
        requires
            self.wf(),
            1 <= q.max_hops <= MAX_HOPS,
            0 <= i < self.search_outcome(q, quarantine).found.len(),
        ensures
            ({
                let cycle = self.search_outcome(q, quarantine).found[i];
                &&& cycle.token_path.first() == q.start
                &&& cycle.token_path.last() == q.start
                &&& 2 <= cycle.token_path.len() <= q.max_hops + 1 <= 4
                &&& cycle.token_path.drop_last().no_duplicates()
                &&& cycle.pool_path.len() == cycle.token_path.len() - 1
            }),
    {
        self.lemma_search_outcome_is_sound(q, quarantine);
    }

    /// No opportunity that a search reports trades twice in one pool: the identities on
    /// its pool path differ pairwise.
    pub proof fn lemma_reported_cycles_reuse_no_pool(
        &self,
        q: SearchParams,
        quarantine: Set<Address>,
        i: int,
        m: int,
        n: int,
    )
        requires
            self.wf(),
            0 <= i < self.search_outcome(q, quarantine).found.len(),
            0 <= m < n < self.search_outcome(q, quarantine).found[i].pool_path.len(),
        ensures
            self.search_outcome(q, quarantine).found[i].pool_path[m] != self.search_outcome(
                q,
                quarantine,
            ).found[i].pool_path[n],
    {
        self.lemma_search_outcome_is_sound(q, quarantine);
    }

    /// Every opportunity that a search reports brings back strictly more than the initial
    /// amount and the profit threshold together, and its profit is what it brings back
    /// less the initial amount.
    pub proof fn lemma_reported_cycles_clear_threshold(
        &self,
        q: SearchParams,
        quarantine: Set<Address>,
        i: int,
    )
        requires
            self.wf(),
            0 <= i < self.search_outcome(q, quarantine).found.len(),
        ensures
            ({
                let cycle = self.search_outcome(q, quarantine).found[i];
                &&& cycle.initial_amount == q.initial_amount
                &&& cycle.final_amount > q.initial_amount + q.profit_threshold
                &&& cycle.profit == cycle.final_amount - q.initial_amount
                &&& cycle.profit > q.profit_threshold
            }),
    {
        self.lemma_search_outcome_is_sound(q, quarantine);
    }

    /// Every find of a search is a sound answer to what was asked, and no pool leaves the
    /// quarantine.
    pub proof fn lemma_search_outcome_is_sound(&self, q: SearchParams, quarantine: Set<Address>)
        requires
            self.wf(),
        ensures
            self.all_sound(q, self.search_outcome(q, quarantine).found),
            quarantine.subset_of(self.search_outcome(q, quarantine).quarantine),
    {
        let path = seq![q.start];
        let st = SearchState {
            quarantine,
            found: Seq::<Cycle>::empty(),
            failures: Seq::<PricingFailure>::empty(),
        };
        assert(path_state_wf(q, path, Seq::<Address>::empty()));
        self.lemma_explore(q, path, Seq::<Address>::empty(), q.initial_amount, st);
    }

    /// Every opportunity that a search reports is a walk through the snapshot: each of its
    /// pools is held and trades the two tokens of its step, and the final amount is what
    /// the pools pay out one after the other, beginning with the initial amount.
    pub proof fn lemma_reported_cycles_are_walks(
        &self,
        q: SearchParams,
        quarantine: Set<Address>,
        i: int,
    )
        requires
            self.wf(),
            0 <= i < self.search_outcome(q, quarantine).found.len(),
        ensures
            self.walk_value(
                q,
                self.search_outcome(q, quarantine).found[i].token_path,
                self.search_outcome(q, quarantine).found[i].pool_path,
            ) == Some(self.search_outcome(q, quarantine).found[i].final_amount),
    {
        self.lemma_search_outcome_is_sound(q, quarantine);
    }

    /// A pool that is quarantined is passed over: trying it leaves everything as it is,
    /// whatever the pool would have answered.
    pub proof fn lemma_quarantined_pool_is_passed_over(
        &self,
        q: SearchParams,
        path: Seq<usize>,
        pool_path: Seq<Address>,
        balance: u64,
        dst: usize,
        pool: usize,
        st: SearchState,
    )
        requires
            st.quarantine.contains(self.spec_records()[pool as int].id),
        ensures
            self.settle(q, path, pool_path, balance, dst, pool, st) == st,
    {
    }

    /// A pool that is asked and has no price is quarantined and the failure is noted, and
    /// nothing else changes.
    pub proof fn lemma_pool_without_price_is_quarantined(
        &self,
        q: SearchParams,
        path: Seq<usize>,
        pool_path: Seq<Address>,
        balance: u64,
        dst: usize,
        pool: usize,
        st: SearchState,
    )
        requires
            !st.quarantine.contains(self.spec_records()[pool as int].id),
            !pool_path.contains(self.spec_records()[pool as int].id),
            self.spec_pools()[pool as int].quote(
                self.spec_records()[pool as int].token_a == path.last(),
                balance,
            ) == NO_QUOTE,
        ensures
            self.settle(q, path, pool_path, balance, dst, pool, st) == (SearchState {
                quarantine: st.quarantine.insert(self.spec_records()[pool as int].id),
                found: st.found,
                failures: st.failures.push(
                    PricingFailure {
                        pool: self.spec_records()[pool as int].id,
                        src: path.last(),
                        dst,
                        amount_in: balance,
                    },
                ),
            }),
    {
    }

    /// The quarantine only grows while a walk goes on, and finds are never taken back: a
    /// pool that was quarantined stays so to the end of the run.
    pub proof fn lemma_quarantine_only_grows(
        &self,
        q: SearchParams,
        path: Seq<usize>,
        pool_path: Seq<Address>,
        balance: u64,
        st: SearchState,
    )
        ensures
            goes_on_from(self.explore(q, path, pool_path, balance, st), st),
    {
        self.lemma_explore(q, path, pool_path, balance, st);
    }

    /// Two searches of one snapshot that are asked the same and begin with the same
    /// quarantine end alike: both are refused for the same reason, or both report the same
    /// opportunities in the same order and leave the same quarantine.
    pub proof fn lemma_search_is_deterministic(
        &self,
        q: SearchParams,
        before: Set<Address>,
        first_after: Set<Address>,
        first: Result<SearchReport, SearchError>,
        second_after: Set<Address>,
        second: Result<SearchReport, SearchError>,
    )
        requires
            self.searched(q, before, first_after, first),
            self.searched(q, before, second_after, second),
        ensures
            first_after == second_after,
            first is Ok <==> second is Ok,
            first is Ok ==> first->Ok_0.opportunities.deep_view()
                == second->Ok_0.opportunities.deep_view() && first->Ok_0.failures@
                == second->Ok_0.failures@,
            first is Err ==> first->Err_0 == second->Err_0,
    {
    }
}

impl<P: PoolOperations> Arbitrager<P> {
    /// Trying a pool notes a failure only of a pool that was clear of the quarantine.
    proof fn lemma_settle_fails_once(
        &self,
        q: SearchParams,
        path: Seq<usize>,
        pool_path: Seq<Address>,
        balance: u64,
        dst: usize,
        pool: usize,
        st: SearchState,
        outset: Set<Address>,
        from: int,
    )
        requires
            0 <= from,
            outset.subset_of(st.quarantine),
            failed_once_each(outset, st, from),
        ensures
            failed_once_each(
                outset,
                self.settle(q, path, pool_path, balance, dst, pool, st),
                from,
            ),
            outset.subset_of(self.settle(q, path, pool_path, balance, dst, pool, st).quarantine),
        decreases hops_left(q.max_hops, path.len()), 0nat, 0nat,
    {
        let record = self.spec_records()[pool as int];
        let after = self.settle(q, path, pool_path, balance, dst, pool, st);
        if st.quarantine.contains(record.id) || pool_path.contains(record.id) {
        } else {
            let a_to_b = record.token_a == path.last();
            let paid = self.spec_pools()[pool as int].quote(a_to_b, balance);
            if paid == NO_QUOTE {
                assert forall|i: int| from <= i < after.failures.len() implies !outset.contains(
                    (#[trigger] after.failures[i]).pool,
                ) && after.quarantine.contains(after.failures[i].pool) by {
                    if i < st.failures.len() {
                        assert(after.failures[i] == st.failures[i]);
                    }
                }
                assert forall|i: int, j: int| from <= i < j < after.failures.len() implies (
                #[trigger] after.failures[i]).pool != (#[trigger] after.failures[j]).pool by {
                    assert(after.failures[i] == st.failures[i]);
                    if j < st.failures.len() {
                        assert(after.failures[j] == st.failures[j]);
                    }
                }
            } else if dst == q.start {
            } else if 1 <= path.len() < q.max_hops {
                self.lemma_explore_fails_once(
                    q,
                    path.push(dst),
                    pool_path.push(record.id),
                    paid,
                    st,
                    outset,
                    from,
                );
            }
        }
    }

    /// The same of trying the pools toward one neighbour in turn.
    proof fn lemma_scan_pools_fails_once(
        &self,
        q: SearchParams,
        path: Seq<usize>,
        pool_path: Seq<Address>,
        balance: u64,
        dst: usize,
        j: nat,
        st: SearchState,
        outset: Set<Address>,
        from: int,
    )
        requires
            0 <= from,
            outset.subset_of(st.quarantine),
            failed_once_each(outset, st, from),
        ensures
            failed_once_each(
                outset,
                self.scan_pools(q, path, pool_path, balance, dst, j, st),
                from,
            ),
            outset.subset_of(self.scan_pools(q, path, pool_path, balance, dst, j, st).quarantine),
        decreases
            hops_left(q.max_hops, path.len()),
            1nat,
            self.spec_pools_between(path.last(), dst).len() - j,
    {
        let pools = self.spec_pools_between(path.last(), dst);
        if j < pools.len() {
            let after = self.settle(q, path, pool_path, balance, dst, pools[j as int], st);
            self.lemma_settle_fails_once(
                q,
                path,
                pool_path,
                balance,
                dst,
                pools[j as int],
                st,
                outset,
                from,
            );
            self.lemma_scan_pools_fails_once(
                q,
                path,
                pool_path,
                balance,
                dst,
                j + 1,
                after,
                outset,
                from,
            );
        }
    }

    /// The same of visiting the neighbours in turn.
    proof fn lemma_scan_neighbors_fails_once(
        &self,
        q: SearchParams,
        path: Seq<usize>,
        pool_path: Seq<Address>,
        balance: u64,
        k: nat,
        st: SearchState,
        outset: Set<Address>,
        from: int,
    )
        requires
            0 <= from,
            outset.subset_of(st.quarantine),
            failed_once_each(outset, st, from),
        ensures
            failed_once_each(
                outset,
                self.scan_neighbors(q, path, pool_path, balance, k, st),
                from,
            ),
            outset.subset_of(self.scan_neighbors(q, path, pool_path, balance, k, st).quarantine),
        decreases
            hops_left(q.max_hops, path.len()),
            2nat,
            self.spec_neighbors(path.last()).len() - k,
    {
        let dsts = self.spec_neighbors(path.last());
        if k < dsts.len() {
            let dst = dsts[k as int];
            let after = if Self::may_step(q, path, dst) {
                self.scan_pools(q, path, pool_path, balance, dst, 0, st)
            } else {
                st
            };
            if Self::may_step(q, path, dst) {
                self.lemma_scan_pools_fails_once(
                    q,
                    path,
                    pool_path,
                    balance,
                    dst,
                    0,
                    st,
                    outset,
                    from,
                );
            }
            self.lemma_scan_neighbors_fails_once(
                q,
                path,
                pool_path,
                balance,
                k + 1,
                after,
                outset,
                from,
            );
        }
    }

    /// While a walk goes on, a pool fails at most once: a failure puts the pool into the
    /// quarantine, and a quarantined pool is not asked again.
    pub proof fn lemma_explore_fails_once(
        &self,
        q: SearchParams,
        path: Seq<usize>,
        pool_path: Seq<Address>,
        balance: u64,
        st: SearchState,
        outset: Set<Address>,
        from: int,
    )
        requires
            0 <= from,
            outset.subset_of(st.quarantine),
            failed_once_each(outset, st, from),
        ensures
            failed_once_each(outset, self.explore(q, path, pool_path, balance, st), from),
            outset.subset_of(self.explore(q, path, pool_path, balance, st).quarantine),
        decreases hops_left(q.max_hops, path.len()), 3nat, 0nat,
    {
        if 1 <= path.len() <= q.max_hops {
            self.lemma_scan_neighbors_fails_once(
                q,
                path,
                pool_path,
                balance,
                0,
                st,
                outset,
                from,
            );
        }
    }

    /// In one search a pool fails at most once, and never a pool that was quarantined when
    /// the search began: the failures that the search notes are of pools that were not in
    /// the quarantine at the outset, each of them is in the quarantine at the end, and no
    /// pool is among them twice.
    pub proof fn lemma_pools_fail_once(&self, q: SearchParams, quarantine: Set<Address>)
        ensures
            failed_once_each(quarantine, self.search_outcome(q, quarantine), 0),
    {
        let st = SearchState {
            quarantine,
            found: Seq::<Cycle>::empty(),
            failures: Seq::<PricingFailure>::empty(),
        };
        self.lemma_explore_fails_once(
            q,
            seq![q.start],
            Seq::<Address>::empty(),
            q.initial_amount,
            st,
            quarantine,
            0,
        );
    }
}

/// A sequence without repeats stays so when something new is put behind it.
proof fn lemma_push_keeps_distinct<T>(items: Seq<T>, item: T)
    requires
        items.no_duplicates(),
        !items.contains(item),
    ensures
        items.push(item).no_duplicates(),
{
    let longer = items.push(item);
    assert forall|i: int, j: int|
        0 <= i < longer.len() && 0 <= j < longer.len() && i != j implies longer[i]
        != longer[j] by {
        if i < items.len() && j < items.len() {
        } else if i < items.len() {
            assert(items.contains(items[i]));
        } else {
            assert(items.contains(items[j]));
        }
    }
}

} // verus!
