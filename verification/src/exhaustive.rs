//! The search leaves nothing out and says nothing twice: every cycle that its rules admit
//! and that pays is among its finds, unless one of the pools of the cycle ended in the
//! quarantine, and no two finds are the same walk.

use crate::address::Address;
use crate::arb::Arbitrager;
use crate::laws::goes_on_from;
use crate::pool::{PoolOperations, NO_QUOTE};
use crate::search::{hops_left, Cycle, SearchParams, SearchState};
use vstd::prelude::*;

verus! {

/// Whether the cycle through `tokens` in the pools with the identities `ids` is among
/// `found`.
pub open spec fn reported(found: Seq<Cycle>, tokens: Seq<usize>, ids: Seq<Address>) -> bool {
    exists|i: int|
        0 <= i < found.len() && (#[trigger] found[i]).token_path == tokens && found[i].pool_path
            == ids
}

impl<P: PoolOperations> Arbitrager<P> {
    /// Whether the walk through `tokens` in the pools with the handles `pools` is a cycle
    /// that the rules of the search admit: it starts and ends at the start token, meets no
    /// other token twice, has at most `q.max_hops` trades, and trades each time in another
    /// pool, one that stands between the two tokens of the trade.
    pub open spec fn admits(&self, q: SearchParams, tokens: Seq<usize>, pools: Seq<usize>) -> bool {
        &&& 2 <= tokens.len() <= q.max_hops + 1
        &&& tokens.first() == q.start
        &&& tokens.last() == q.start
        &&& tokens.drop_last().no_duplicates()
        &&& pools.len() == tokens.len() - 1
        &&& pools.no_duplicates()
        &&& forall|i: int|
            0 <= i < pools.len() ==> self.spec_pools_between(tokens[i], tokens[i + 1]).contains(
                #[trigger] pools[i],
            )
    }

    /// The identities of the pools with the handles `pools`.
    pub open spec fn ids_of(&self, pools: Seq<usize>) -> Seq<Address> {
        Seq::new(pools.len(), |i: int| self.spec_records()[pools[i] as int].id)
    }

    /// What is in hand after the first `n` trades of the walk through `tokens` in the pools
    /// with the handles `pools`, which begins with the initial amount.
    pub open spec fn value_after(
        &self,
        q: SearchParams,
        tokens: Seq<usize>,
        pools: Seq<usize>,
        n: int,
    ) -> u64
        decreases n,
    {
        if n <= 0 {
            q.initial_amount
        } else {
            let pool = pools[n - 1];
            let a_to_b = self.spec_records()[pool as int].token_a == tokens[n - 1];
            self.spec_pools()[pool as int].quote(a_to_b, self.value_after(q, tokens, pools, n - 1))
        }
    }

    /// Whether every trade of the walk has a price, and the last brings back more than the
    /// threshold over what was put in.
    pub open spec fn pays(&self, q: SearchParams, tokens: Seq<usize>, pools: Seq<usize>) -> bool {
        &&& forall|n: int|
            1 <= n <= pools.len() ==> #[trigger] self.value_after(q, tokens, pools, n) != NO_QUOTE
        &&& self.value_after(q, tokens, pools, pools.len() as int) > q.initial_amount
            + q.profit_threshold
    }

    /// Whether none of the pools with the handles `pools` is in `quarantine`.
    pub open spec fn all_clear(&self, pools: Seq<usize>, quarantine: Set<Address>) -> bool {
        forall|i: int|
            0 <= i < pools.len() ==> !quarantine.contains(
                (#[trigger] self.spec_records()[pools[i] as int]).id,
            )
    }

    /// The pools of an admitted cycle are held, and their identities differ.
    proof fn lemma_ids_differ(&self, q: SearchParams, tokens: Seq<usize>, pools: Seq<usize>)
        requires
            self.wf(),
            self.admits(q, tokens, pools),
        ensures
            forall|i: int| 0 <= i < pools.len() ==> (#[trigger] pools[i]) < self.spec_records().len(),
            self.ids_of(pools).no_duplicates(),
    {
        assert forall|i: int| 0 <= i < pools.len() implies (#[trigger] pools[i])
            < self.spec_records().len() by {
            let list = self.spec_pools_between(tokens[i], tokens[i + 1]);
            let k = choose|k: int| 0 <= k < list.len() && list[k] == pools[i];
            assert(self.stands_between(list[k], tokens[i], tokens[i + 1]));
        }
        let ids = self.ids_of(pools);
        assert forall|i: int, j: int| 0 <= i < ids.len() && 0 <= j < ids.len() && i != j implies ids[i]
            != ids[j] by {
            let g = pools[i];
            let h = pools[j];
            assert(g != h);
            if g < h {
                assert(self.spec_records()[g as int].id != self.spec_records()[h as int].id);
            } else {
                assert(self.spec_records()[h as int].id != self.spec_records()[g as int].id);
            }
        }
    }

    /// Trying the pools toward the next token of the cycle in turn, from the `j`-th on,
    /// finds the cycle: its pool stands at the place `at`, which is still to come.
    proof fn lemma_found_in_pools(
        &self,
        q: SearchParams,
        tokens: Seq<usize>,
        pools: Seq<usize>,
        n: int,
        j: nat,
        at: nat,
        st: SearchState,
    )
        requires
            self.wf(),
            self.admits(q, tokens, pools),
            self.pays(q, tokens, pools),
            1 <= n <= pools.len(),
            j <= at < self.spec_pools_between(tokens[n - 1], tokens[n]).len(),
            self.spec_pools_between(tokens[n - 1], tokens[n])[at as int] == pools[n - 1],
            self.all_clear(
                pools,
                self.scan_pools(
                    q,
                    tokens.take(n),
                    self.ids_of(pools).take(n - 1),
                    self.value_after(q, tokens, pools, n - 1),
                    tokens[n],
                    j,
                    st,
                ).quarantine,
            ),
        ensures
            reported(
                self.scan_pools(
                    q,
                    tokens.take(n),
                    self.ids_of(pools).take(n - 1),
                    self.value_after(q, tokens, pools, n - 1),
                    tokens[n],
                    j,
                    st,
                ).found,
                tokens,
                self.ids_of(pools),
            ),
        decreases tokens.len() - n, 1nat, at - j,
    {
        let path = tokens.take(n);
        let ids = self.ids_of(pools);
        let pool_path = ids.take(n - 1);
        let balance = self.value_after(q, tokens, pools, n - 1);
        let dst = tokens[n];
        assert(path.last() == tokens[n - 1]);
        let list = self.spec_pools_between(path.last(), dst);
        let result = self.scan_pools(q, path, pool_path, balance, dst, j, st);
        let after = self.settle(q, path, pool_path, balance, dst, list[j as int], st);
        assert(result == self.scan_pools(q, path, pool_path, balance, dst, j + 1, after));
        if j < at {
            self.lemma_found_in_pools(q, tokens, pools, n, j + 1, at, after);
        } else {
            let pool = pools[n - 1];
            let record = self.spec_records()[pool as int];
            self.lemma_ids_differ(q, tokens, pools);
            self.lemma_settle(q, path, pool_path, balance, dst, pool, st);
            self.lemma_scan_pools(q, path, pool_path, balance, dst, j + 1, after);
            assert(ids[n - 1] == record.id);
            assert(!st.quarantine.contains(record.id)) by {
                assert(!result.quarantine.contains(self.spec_records()[pools[n - 1] as int].id));
            }
            assert(!pool_path.contains(record.id)) by {
                if pool_path.contains(record.id) {
                    let i = choose|i: int| 0 <= i < pool_path.len() && pool_path[i] == record.id;
                    assert(ids[i] == ids[n - 1]);
                }
            }
            let paid = self.value_after(q, tokens, pools, n);
            assert(paid == self.spec_pools()[pool as int].quote(
                record.token_a == path.last(),
                balance,
            ));
            assert(paid != NO_QUOTE);
            assert(path.push(dst) =~= tokens.take(n + 1));
            assert(pool_path.push(record.id) =~= ids.take(n));
            if dst == q.start {
                assert(n == tokens.len() - 1) by {
                    if n < tokens.len() - 1 {
                        assert(tokens.drop_last()[n] == tokens.drop_last()[0]);
                    }
                }
                assert(tokens.take(n + 1) =~= tokens);
                assert(ids.take(n) =~= ids);
                assert(after.found.last().token_path == tokens);
                assert(after.found.last().pool_path == ids);
                assert(reported(after.found, tokens, ids));
            } else {
                assert(n < tokens.len() - 1);
                assert(self.all_clear(pools, after.quarantine)) by {
                    assert forall|i: int| 0 <= i < pools.len() implies !after.quarantine.contains(
                        (#[trigger] self.spec_records()[pools[i] as int]).id,
                    ) by {
                        assert(!result.quarantine.contains(self.spec_records()[pools[i] as int].id));
                    }
                }
                self.lemma_found_in_walk(q, tokens, pools, n + 1, st);
            }
            let i = choose|i: int|
                0 <= i < after.found.len() && (#[trigger] after.found[i]).token_path == tokens
                    && after.found[i].pool_path == ids;
            assert(result.found[i] == after.found[i]);
        }
    }

    /// Visiting the neighbours in turn, from the `k`-th on, finds the cycle: its next token
    /// stands at the place `at`, which is still to come.
    proof fn lemma_found_in_neighbors(
        &self,
        q: SearchParams,
        tokens: Seq<usize>,
        pools: Seq<usize>,
        n: int,
        k: nat,
        at: nat,
        st: SearchState,
    )
        requires
            self.wf(),
            self.admits(q, tokens, pools),
            self.pays(q, tokens, pools),
            1 <= n <= pools.len(),
            k <= at < self.spec_neighbors(tokens[n - 1]).len(),
            self.spec_neighbors(tokens[n - 1])[at as int] == tokens[n],
            self.all_clear(
                pools,
                self.scan_neighbors(
                    q,
                    tokens.take(n),
                    self.ids_of(pools).take(n - 1),
                    self.value_after(q, tokens, pools, n - 1),
                    k,
                    st,
                ).quarantine,
            ),
        ensures
            reported(
                self.scan_neighbors(
                    q,
                    tokens.take(n),
                    self.ids_of(pools).take(n - 1),
                    self.value_after(q, tokens, pools, n - 1),
                    k,
                    st,
                ).found,
                tokens,
                self.ids_of(pools),
            ),
        decreases tokens.len() - n, 2nat, at - k,
    {
        let path = tokens.take(n);
        let ids = self.ids_of(pools);
        let pool_path = ids.take(n - 1);
        let balance = self.value_after(q, tokens, pools, n - 1);
        assert(path.last() == tokens[n - 1]);
        let dsts = self.spec_neighbors(path.last());
        let dst = dsts[k as int];
        let result = self.scan_neighbors(q, path, pool_path, balance, k, st);
        let after = if Self::may_step(q, path, dst) {
            self.scan_pools(q, path, pool_path, balance, dst, 0, st)
        } else {
            st
        };
        assert(result == self.scan_neighbors(q, path, pool_path, balance, k + 1, after));
        if k < at {
            self.lemma_found_in_neighbors(q, tokens, pools, n, k + 1, at, after);
        } else {
            assert(dst == tokens[n]);
            assert(Self::may_step(q, path, dst)) by {
                if dst != q.start {
                    assert(n < tokens.len() - 1);
                    if path.contains(dst) {
                        let i = choose|i: int| 0 <= i < path.len() && path[i] == dst;
                        assert(tokens.drop_last()[i] == tokens.drop_last()[n]);
                    }
                }
            }
            self.lemma_scan_neighbors(q, path, pool_path, balance, k + 1, after);
            assert(self.all_clear(pools, after.quarantine)) by {
                assert forall|i: int| 0 <= i < pools.len() implies !after.quarantine.contains(
                    (#[trigger] self.spec_records()[pools[i] as int]).id,
                ) by {
                    assert(!result.quarantine.contains(self.spec_records()[pools[i] as int].id));
                }
            }
            let list = self.spec_pools_between(tokens[n - 1], tokens[n]);
            assert(list.contains(pools[n - 1]));
            let place = choose|place: int| 0 <= place < list.len() && list[place] == pools[n - 1];
            self.lemma_found_in_pools(q, tokens, pools, n, 0, place as nat, st);
            let i = choose|i: int|
                0 <= i < after.found.len() && (#[trigger] after.found[i]).token_path == tokens
                    && after.found[i].pool_path == ids;
            assert(result.found[i] == after.found[i]);
        }
    }

    /// A walk that stands on the way of a cycle which pays finds it, if the pools of the
    /// cycle stay clear of the quarantine.
    proof fn lemma_found_in_walk(
        &self,
        q: SearchParams,
        tokens: Seq<usize>,
        pools: Seq<usize>,
        n: int,
        st: SearchState,
    )
        requires
            self.wf(),
            self.admits(q, tokens, pools),
            self.pays(q, tokens, pools),
            1 <= n <= pools.len(),
            self.all_clear(
                pools,
                self.explore(
                    q,
                    tokens.take(n),
                    self.ids_of(pools).take(n - 1),
                    self.value_after(q, tokens, pools, n - 1),
                    st,
                ).quarantine,
            ),
        ensures
            reported(
                self.explore(
                    q,
                    tokens.take(n),
                    self.ids_of(pools).take(n - 1),
                    self.value_after(q, tokens, pools, n - 1),
                    st,
                ).found,
                tokens,
                self.ids_of(pools),
            ),
        decreases tokens.len() - n, 3nat, 0nat,
    {
        let path = tokens.take(n);
        assert(path.last() == tokens[n - 1]);
        let list = self.spec_pools_between(tokens[n - 1], tokens[n]);
        assert(list.contains(pools[n - 1]));
        self.graph.lemma_neighbors_have_pools(tokens[n - 1], tokens[n]);
        let dsts = self.spec_neighbors(tokens[n - 1]);
        let place = choose|place: int| 0 <= place < dsts.len() && dsts[place] == tokens[n];
        self.lemma_found_in_neighbors(q, tokens, pools, n, 0, place as nat, st);
    }

    /// What is in hand after `n` trades of an admitted cycle that pays is what the walk
    /// through its first `n + 1` tokens has in hand at its end.
    pub proof fn lemma_value_of_walk(
        &self,
        q: SearchParams,
        tokens: Seq<usize>,
        pools: Seq<usize>,
        n: int,
    )
        requires
            self.wf(),
            self.admits(q, tokens, pools),
            self.pays(q, tokens, pools),
            0 <= n <= pools.len(),
        ensures
            self.walk_value(q, tokens.take(n + 1), self.ids_of(pools).take(n)) == Some(
                self.value_after(q, tokens, pools, n),
            ),
        decreases n,
    {
        let ids = self.ids_of(pools);
        if n == 0 {
            assert(tokens.take(1).len() == 1);
            assert(ids.take(0).len() == 0);
        } else {
            self.lemma_value_of_walk(q, tokens, pools, n - 1);
            let path = tokens.take(n);
            let pool = pools[n - 1];
            assert(path.last() == tokens[n - 1]);
            assert(self.value_after(q, tokens, pools, n) != NO_QUOTE);
            self.lemma_walk_step(
                q,
                path,
                ids.take(n - 1),
                self.value_after(q, tokens, pools, n - 1),
                tokens[n],
                pool,
            );
            assert(path.push(tokens[n]) =~= tokens.take(n + 1));
            assert(ids.take(n - 1).push(self.spec_records()[pool as int].id) =~= ids.take(n));
        }
    }

    /// The search is exhaustive up to its depth. Take any cycle that the rules admit: it
    /// starts and ends at the start token, meets no other token twice, has no more trades
    /// than the hop limit allows, and trades each time in another pool between the two
    /// tokens of the trade. If every trade of it has a price, if it brings back more than
    /// the threshold over what was put in, and if none of its pools is in the quarantine
    /// when the search ends, then the search reports it, with what it brings back.
    pub proof fn lemma_search_is_exhaustive(
        &self,
        q: SearchParams,
        quarantine: Set<Address>,
        tokens: Seq<usize>,
        pools: Seq<usize>,
    )
        requires
            self.wf(),
            self.admits(q, tokens, pools),
            self.pays(q, tokens, pools),
            self.all_clear(pools, self.search_outcome(q, quarantine).quarantine),
        ensures
            exists|i: int|
                #![trigger self.search_outcome(q, quarantine).found[i]]
                {
                    let found = self.search_outcome(q, quarantine).found;
                    &&& 0 <= i < found.len()
                    &&& found[i].token_path == tokens
                    &&& found[i].pool_path == self.ids_of(pools)
                    &&& found[i].initial_amount == q.initial_amount
                    &&& found[i].final_amount == self.value_after(
                        q,
                        tokens,
                        pools,
                        pools.len() as int,
                    )
                },
    {
        let st = SearchState {
            quarantine,
            found: Seq::<Cycle>::empty(),
            failures: Seq::empty(),
        };
        let ids = self.ids_of(pools);
        assert(tokens.take(1) =~= seq![q.start]);
        assert(ids.take(0) =~= Seq::<Address>::empty());
        self.lemma_found_in_walk(q, tokens, pools, 1, st);
        let found = self.search_outcome(q, quarantine).found;
        let i = choose|i: int|
            0 <= i < found.len() && (#[trigger] found[i]).token_path == tokens
                && found[i].pool_path == ids;
        self.lemma_search_outcome_is_sound(q, quarantine);
        assert(self.sound_cycle(q, found[i]));
        self.lemma_value_of_walk(q, tokens, pools, pools.len() as int);
        assert(tokens.take(pools.len() as int + 1) =~= tokens);
        assert(ids.take(pools.len() as int) =~= ids);
    }
}

/// Whether the cycle begins with the walk along `path` through the pools of `pool_path`,
/// and goes on beyond it.
pub open spec fn goes_beyond(cycle: Cycle, path: Seq<usize>, pool_path: Seq<Address>) -> bool {
    &&& cycle.token_path.len() > path.len()
    &&& cycle.token_path.take(path.len() as int) == path
    &&& cycle.pool_path.len() > pool_path.len()
    &&& cycle.pool_path.take(pool_path.len() as int) == pool_path
}

/// Whether two cycles pass the same tokens through the same pools.
pub open spec fn same_walk(one: Cycle, other: Cycle) -> bool {
    one.token_path == other.token_path && one.pool_path == other.pool_path
}

/// Whether no two of the finds from the place `from` on are the same walk.
pub open spec fn no_walk_twice(found: Seq<Cycle>, from: int) -> bool {
    forall|i: int, j: int|
        from <= i < j < found.len() ==> !same_walk(#[trigger] found[i], #[trigger] found[j])
}

impl<P: PoolOperations> Arbitrager<P> {
    /// Whether the cycle trades at its step `m` in one of `pools`, from the `j`-th on.
    pub open spec fn trades_in_one_of(
        &self,
        cycle: Cycle,
        m: int,
        pools: Seq<usize>,
        j: nat,
    ) -> bool {
        exists|p: int|
            j <= p < pools.len() && cycle.pool_path[m] == self.spec_records()[(
            #[trigger] pools[p]) as int].id
    }

    /// Whether the cycle goes at its step `n` to one of `dsts`, from the `k`-th on.
    pub open spec fn goes_to_one_of(cycle: Cycle, n: int, dsts: Seq<usize>, k: nat) -> bool {
        exists|p: int| k <= p < dsts.len() && cycle.token_path[n] == #[trigger] dsts[p]
    }

    /// What trying one pool adds to the finds goes on from the path to `dst` through that
    /// pool, and holds no walk twice.
    proof fn lemma_settle_adds_new(
        &self,
        q: SearchParams,
        path: Seq<usize>,
        pool_path: Seq<Address>,
        balance: u64,
        dst: usize,
        pool: usize,
        st: SearchState,
    )
        requires
            self.wf(),
        ensures
            ({
                let after = self.settle(q, path, pool_path, balance, dst, pool, st);
                &&& forall|i: int|
                    st.found.len() <= i < after.found.len() ==> goes_beyond(
                        #[trigger] after.found[i],
                        path,
                        pool_path,
                    ) && after.found[i].token_path[path.len() as int] == dst
                        && after.found[i].pool_path[pool_path.len() as int]
                        == self.spec_records()[pool as int].id
                &&& no_walk_twice(after.found, st.found.len() as int)
            }),
        decreases hops_left(q.max_hops, path.len()), 0nat, 0nat,
    {
        let record = self.spec_records()[pool as int];
        let after = self.settle(q, path, pool_path, balance, dst, pool, st);
        let longer = path.push(dst);
        let pools_longer = pool_path.push(record.id);
        if st.quarantine.contains(record.id) || pool_path.contains(record.id) {
        } else {
            let a_to_b = record.token_a == path.last();
            let paid = self.spec_pools()[pool as int].quote(a_to_b, balance);
            if paid == NO_QUOTE {
            } else if dst == q.start {
                if paid > q.initial_amount + q.profit_threshold {
                    assert(longer.take(path.len() as int) =~= path);
                    assert(pools_longer.take(pool_path.len() as int) =~= pool_path);
                }
            } else if 1 <= path.len() < q.max_hops {
                self.lemma_explore_adds_new(q, longer, pools_longer, paid, st);
                assert forall|i: int| st.found.len() <= i < after.found.len() implies goes_beyond(
                    #[trigger] after.found[i],
                    path,
                    pool_path,
                ) && after.found[i].token_path[path.len() as int] == dst
                    && after.found[i].pool_path[pool_path.len() as int] == record.id by {
                    let cycle = after.found[i];
                    assert(goes_beyond(cycle, longer, pools_longer));
                    let tokens = cycle.token_path.take(longer.len() as int);
                    let ids = cycle.pool_path.take(pools_longer.len() as int);
                    assert(tokens[path.len() as int] == dst);
                    assert(ids[pool_path.len() as int] == record.id);
                    assert(cycle.token_path.take(path.len() as int) =~= tokens.take(
                        path.len() as int,
                    ));
                    assert(longer.take(path.len() as int) =~= path);
                    assert(cycle.pool_path.take(pool_path.len() as int) =~= ids.take(
                        pool_path.len() as int,
                    ));
                    assert(pools_longer.take(pool_path.len() as int) =~= pool_path);
                }
            }
        }
    }

    /// What trying the pools toward `dst` in turn adds to the finds goes on from the path
    /// to `dst` through one of those pools, and holds no walk twice.
    proof fn lemma_scan_pools_adds_new(
        &self,
        q: SearchParams,
        path: Seq<usize>,
        pool_path: Seq<Address>,
        balance: u64,
        dst: usize,
        j: nat,
        st: SearchState,
    )
        requires
            self.wf(),
        ensures
            ({
                let after = self.scan_pools(q, path, pool_path, balance, dst, j, st);
                &&& forall|i: int|
                    st.found.len() <= i < after.found.len() ==> goes_beyond(
                        #[trigger] after.found[i],
                        path,
                        pool_path,
                    ) && after.found[i].token_path[path.len() as int] == dst
                        && self.trades_in_one_of(
                        after.found[i],
                        pool_path.len() as int,
                        self.spec_pools_between(path.last(), dst),
                        j,
                    )
                &&& no_walk_twice(after.found, st.found.len() as int)
            }),
        decreases
            hops_left(q.max_hops, path.len()),
            1nat,
            self.spec_pools_between(path.last(), dst).len() - j,
    {
        let pools = self.spec_pools_between(path.last(), dst);
        let m = pool_path.len() as int;
        if j < pools.len() {
            let pool = pools[j as int];
            let mid = self.settle(q, path, pool_path, balance, dst, pool, st);
            let after = self.scan_pools(q, path, pool_path, balance, dst, j + 1, mid);
            self.lemma_settle_adds_new(q, path, pool_path, balance, dst, pool, st);
            self.lemma_scan_pools_adds_new(q, path, pool_path, balance, dst, j + 1, mid);
            self.lemma_settle(q, path, pool_path, balance, dst, pool, st);
            self.lemma_scan_pools(q, path, pool_path, balance, dst, j + 1, mid);
            self.graph.lemma_neighbors_have_pools(path.last(), dst);
            assert forall|i: int| st.found.len() <= i < after.found.len() implies goes_beyond(
                #[trigger] after.found[i],
                path,
                pool_path,
            ) && after.found[i].token_path[path.len() as int] == dst && self.trades_in_one_of(
                after.found[i],
                m,
                pools,
                j,
            ) by {
                if i < mid.found.len() {
                    assert(after.found[i] == mid.found[i]);
                    assert(pools[j as int] == pool);
                } else {
                    let p = choose|p: int|
                        j + 1 <= p < pools.len() && after.found[i].pool_path[m]
                            == self.spec_records()[(#[trigger] pools[p]) as int].id;
                    assert(pools[p] == pools[p]);
                }
            }
            assert forall|a: int, b: int| st.found.len() <= a < b < after.found.len() implies !same_walk(
                #[trigger] after.found[a],
                #[trigger] after.found[b],
            ) by {
                if b < mid.found.len() {
                    assert(after.found[a] == mid.found[a]);
                    assert(after.found[b] == mid.found[b]);
                } else if a < mid.found.len() {
                    assert(after.found[a] == mid.found[a]);
                    let p = choose|p: int|
                        j + 1 <= p < pools.len() && after.found[b].pool_path[m]
                            == self.spec_records()[(#[trigger] pools[p]) as int].id;
                    let other = pools[p];
                    assert(other != pool);
                    assert(self.stands_between(pools[p], path.last(), dst));
                    assert(self.stands_between(pools[j as int], path.last(), dst));
                    if other < pool {
                        assert(self.spec_records()[other as int].id
                            != self.spec_records()[pool as int].id);
                    } else {
                        assert(self.spec_records()[pool as int].id
                            != self.spec_records()[other as int].id);
                    }
                }
            }
        }
    }

    /// What visiting the neighbours in turn adds to the finds goes on from the path to one
    /// of those neighbours, and holds no walk twice.
    proof fn lemma_scan_neighbors_adds_new(
        &self,
        q: SearchParams,
        path: Seq<usize>,
        pool_path: Seq<Address>,
        balance: u64,
        k: nat,
        st: SearchState,
    )
        requires
            self.wf(),
        ensures
            ({
                let after = self.scan_neighbors(q, path, pool_path, balance, k, st);
                &&& forall|i: int|
                    st.found.len() <= i < after.found.len() ==> goes_beyond(
                        #[trigger] after.found[i],
                        path,
                        pool_path,
                    ) && Self::goes_to_one_of(
                        after.found[i],
                        path.len() as int,
                        self.spec_neighbors(path.last()),
                        k,
                    )
                &&& no_walk_twice(after.found, st.found.len() as int)
            }),
        decreases
            hops_left(q.max_hops, path.len()),
            2nat,
            self.spec_neighbors(path.last()).len() - k,
    {
        let dsts = self.spec_neighbors(path.last());
        let n = path.len() as int;
        if k < dsts.len() {
            let dst = dsts[k as int];
            let mid = if Self::may_step(q, path, dst) {
                self.scan_pools(q, path, pool_path, balance, dst, 0, st)
            } else {
                st
            };
            let after = self.scan_neighbors(q, path, pool_path, balance, k + 1, mid);
            if Self::may_step(q, path, dst) {
                self.lemma_scan_pools_adds_new(q, path, pool_path, balance, dst, 0, st);
                self.lemma_scan_pools(q, path, pool_path, balance, dst, 0, st);
            }
            self.lemma_scan_neighbors_adds_new(q, path, pool_path, balance, k + 1, mid);
            self.lemma_scan_neighbors(q, path, pool_path, balance, k + 1, mid);
            self.graph.lemma_neighbors_have_pools(path.last(), dst);
            assert forall|i: int| st.found.len() <= i < after.found.len() implies goes_beyond(
                #[trigger] after.found[i],
                path,
                pool_path,
            ) && Self::goes_to_one_of(after.found[i], n, dsts, k) by {
                if i < mid.found.len() {
                    assert(after.found[i] == mid.found[i]);
                    assert(dsts[k as int] == dst);
                } else {
                    let p = choose|p: int|
                        k + 1 <= p < dsts.len() && after.found[i].token_path[n] == #[trigger] dsts[p];
                    assert(dsts[p] == dsts[p]);
                }
            }
            assert forall|a: int, b: int| st.found.len() <= a < b < after.found.len() implies !same_walk(
                #[trigger] after.found[a],
                #[trigger] after.found[b],
            ) by {
                if b < mid.found.len() {
                    assert(after.found[a] == mid.found[a]);
                    assert(after.found[b] == mid.found[b]);
                } else if a < mid.found.len() {
                    assert(after.found[a] == mid.found[a]);
                    let p = choose|p: int|
                        k + 1 <= p < dsts.len() && after.found[b].token_path[n] == #[trigger] dsts[p];
                    assert(dsts[p] != dsts[k as int]);
                }
            }
        }
    }

    /// What a walk adds to the finds goes on from its path, and holds no walk twice.
    proof fn lemma_explore_adds_new(
        &self,
        q: SearchParams,
        path: Seq<usize>,
        pool_path: Seq<Address>,
        balance: u64,
        st: SearchState,
    )
        requires
            self.wf(),
        ensures
            ({
                let after = self.explore(q, path, pool_path, balance, st);
                &&& forall|i: int|
                    st.found.len() <= i < after.found.len() ==> goes_beyond(
                        #[trigger] after.found[i],
                        path,
                        pool_path,
                    )
                &&& no_walk_twice(after.found, st.found.len() as int)
            }),
        decreases hops_left(q.max_hops, path.len()), 3nat, 0nat,
    {
        if 1 <= path.len() <= q.max_hops {
            self.lemma_scan_neighbors_adds_new(q, path, pool_path, balance, 0, st);
        }
    }

    /// No cycle is reported twice: any two opportunities of one search differ in the
    /// tokens that they pass or in the pools that they trade in.
    pub proof fn lemma_no_cycle_is_reported_twice(
        &self,
        q: SearchParams,
        quarantine: Set<Address>,
        i: int,
        j: int,
    )
        requires
            self.wf(),
            0 <= i < j < self.search_outcome(q, quarantine).found.len(),
        ensures
            self.search_outcome(q, quarantine).found[i].token_path != self.search_outcome(
                q,
                quarantine,
            ).found[j].token_path || self.search_outcome(q, quarantine).found[i].pool_path
                != self.search_outcome(q, quarantine).found[j].pool_path,
    {
        let st = SearchState {
            quarantine,
            found: Seq::<Cycle>::empty(),
            failures: Seq::empty(),
        };
        self.lemma_explore_adds_new(q, seq![q.start], Seq::<Address>::empty(), q.initial_amount, st);
        let found = self.search_outcome(q, quarantine).found;
        assert(!same_walk(found[i], found[j]));
    }
}

} // verus!
