//! The search: every simple cycle of at most `MAX_HOPS` trades through the start token is
//! walked, depth first and in the order in which tokens and pools were added, and those that
//! bring back more than the threshold are reported.

use crate::address::Address;
use crate::arb::{Arbitrager, MAX_HOPS};
use crate::graph::contains_handle;
use crate::laws::{failed_once_each, goes_on_from};
use crate::pool::{PoolOperations, NO_QUOTE};
use crate::quarantine::QuarantineSet;
use vstd::prelude::*;

verus! {

/// A cycle of trades that pays: the tokens it passes, the start token first and last, the
/// pools it trades in, and what goes in and comes out.
#[derive(Debug, PartialEq, Eq)]
pub struct Opportunity {
    pub token_path: Vec<usize>,
    pub pool_path: Vec<Address>,
    pub initial_amount: u64,
    pub final_amount: u64,
    pub profit: u64,
}

/// An opportunity as a value of mathematics.
pub struct Cycle {
    pub token_path: Seq<usize>,
    pub pool_path: Seq<Address>,
    pub initial_amount: u64,
    pub final_amount: u64,
    pub profit: u64,
}

impl View for Opportunity {
    type V = Cycle;

    open spec fn view(&self) -> Cycle {
        Cycle {
            token_path: self.token_path@,
            pool_path: self.pool_path@,
            initial_amount: self.initial_amount,
            final_amount: self.final_amount,
            profit: self.profit,
        }
    }
}

impl DeepView for Opportunity {
    type V = Cycle;

    open spec fn deep_view(&self) -> Cycle {
        self@
    }
}

/// What a search is asked: where the cycles start, what is put in, how many trades a cycle
/// may have, and by how much the return must exceed what was put in.
#[derive(Debug, Clone, Copy)]
pub struct SearchParams {
    pub start: usize,
    pub initial_amount: u64,
    pub max_hops: usize,
    pub profit_threshold: u64,
}

/// A pool that had no price when it was asked: which pool, between which tokens, and for
/// which amount.
#[derive(Debug, Clone, Copy, PartialEq, Eq)]
pub struct PricingFailure {
    pub pool: Address,
    pub src: usize,
    pub dst: usize,
    pub amount_in: u64,
}

/// What a search gives back: the opportunities in the order of their discovery, and the
/// pricing failures in the order in which they happened.
#[derive(Debug, PartialEq, Eq)]
pub struct SearchReport {
    pub opportunities: Vec<Opportunity>,
    pub failures: Vec<PricingFailure>,
}

/// What a search has gathered so far: the pools that are not to be asked for a price, the
/// opportunities in the order of their discovery, and the pricing failures in the order in
/// which they happened.
pub struct SearchState {
    pub quarantine: Set<Address>,
    pub found: Seq<Cycle>,
    pub failures: Seq<PricingFailure>,
}

/// Why a search was not run.
#[derive(Debug, Clone, Copy, PartialEq, Eq, Structural)]
pub enum SearchError {
    /// The hop limit is zero or above `MAX_HOPS`.
    InvalidMaxHops,
    /// The start token is no token of the snapshot.
    UnknownStartToken,
}

/// What the quarantine set and the report come to as a search state.
pub open spec fn state_of(error_pools: QuarantineSet, report: SearchReport) -> SearchState {
    SearchState {
        quarantine: error_pools@,
        found: report.opportunities.deep_view(),
        failures: report.failures@,
    }
}

/// How many more trades a path of `len` tokens may take on.
pub open spec fn hops_left(max_hops: usize, len: nat) -> nat {
    if 1 <= len <= max_hops {
        (max_hops + 1 - len) as nat
    } else {
        0
    }
}

impl<P: PoolOperations> Arbitrager<P> {
    /// Whether a path may go on to `dst`. The start token closes the cycle and is always
    /// admitted. Any other token must be new to the path, and the trade toward it must not
    /// be the last that the hop limit allows, which is kept for the way back.
    pub open spec fn may_step(q: SearchParams, path: Seq<usize>, dst: usize) -> bool {
        dst == q.start || (path.len() < q.max_hops && !path.contains(dst))
    }

    /// The state after the path, standing at its last token with `balance` in hand, has
    /// tried the pool with handle `pool` toward `dst`.
    ///
    /// A pool that is quarantined or was traded in earlier on the path is passed over. Else
    /// the pool is asked for its price, in the direction that its own order of tokens gives.
    /// A pool that has none is quarantined, and the failure is noted. Where `dst` closes the
    /// cycle, the cycle is reported if it brings back more than the threshold over what was
    /// put in, and is never walked further. Otherwise the walk goes on from `dst` with what
    /// the pool paid out.
    pub open spec fn settle(
        &self,
        q: SearchParams,
        path: Seq<usize>,
        pool_path: Seq<Address>,
        balance: u64,
        dst: usize,
        pool: usize,
        st: SearchState,
    ) -> SearchState
        decreases hops_left(q.max_hops, path.len()), 0nat, 0nat,
    {
        let record = self.spec_records()[pool as int];
        if st.quarantine.contains(record.id) || pool_path.contains(record.id) {
            st
        } else {
            let a_to_b = record.token_a == path.last();
            let paid = self.spec_pools()[pool as int].quote(a_to_b, balance);
            if paid == NO_QUOTE {
                let failure = PricingFailure {
                    pool: record.id,
                    src: path.last(),
                    dst,
                    amount_in: balance,
                };
                SearchState {
                    quarantine: st.quarantine.insert(record.id),
                    found: st.found,
                    failures: st.failures.push(failure),
                }
            } else if dst == q.start {
                if paid > q.initial_amount + q.profit_threshold {
                    let cycle = Cycle {
                        token_path: path.push(dst),
                        pool_path: pool_path.push(record.id),
                        initial_amount: q.initial_amount,
                        final_amount: paid,
                        profit: (paid - q.initial_amount) as u64,
                    };
                    SearchState {
                        quarantine: st.quarantine,
                        found: st.found.push(cycle),
                        failures: st.failures,
                    }
                } else {
                    st
                }
            } else if 1 <= path.len() < q.max_hops {
                self.explore(q, path.push(dst), pool_path.push(record.id), paid, st)
            } else {
                st
            }
        }
    }

    /// The state after the pools between the last token of the path and `dst` were tried
    /// in turn, from the `j`-th on.
    pub open spec fn scan_pools(
        &self,
        q: SearchParams,
        path: Seq<usize>,
        pool_path: Seq<Address>,
        balance: u64,
        dst: usize,
        j: nat,
        st: SearchState,
    ) -> SearchState
        decreases
            hops_left(q.max_hops, path.len()),
            1nat,
            self.spec_pools_between(path.last(), dst).len() - j,
    {
        let pools = self.spec_pools_between(path.last(), dst);
        if j >= pools.len() {
            st
        } else {
            let after = self.settle(q, path, pool_path, balance, dst, pools[j as int], st);
            self.scan_pools(q, path, pool_path, balance, dst, j + 1, after)
        }
    }

    /// The state after the neighbours of the last token of the path were visited in turn,
    /// from the `k`-th on: each that the path may go on to, through each of its pools.
    pub open spec fn scan_neighbors(
        &self,
        q: SearchParams,
        path: Seq<usize>,
        pool_path: Seq<Address>,
        balance: u64,
        k: nat,
        st: SearchState,
    ) -> SearchState
        decreases
            hops_left(q.max_hops, path.len()),
            2nat,
            self.spec_neighbors(path.last()).len() - k,
    {
        let dsts = self.spec_neighbors(path.last());
        if k >= dsts.len() {
            st
        } else {
            let dst = dsts[k as int];
            let after = if Self::may_step(q, path, dst) {
                self.scan_pools(q, path, pool_path, balance, dst, 0, st)
            } else {
                st
            };
            self.scan_neighbors(q, path, pool_path, balance, k + 1, after)
        }
    }

    /// The state after everything that continues the path was walked. A path that has used
    /// up its hops, or that holds no token, is not continued.
    pub open spec fn explore(
        &self,
        q: SearchParams,
        path: Seq<usize>,
        pool_path: Seq<Address>,
        balance: u64,
        st: SearchState,
    ) -> SearchState
        decreases hops_left(q.max_hops, path.len()), 3nat, 0nat,
    {
        if 1 <= path.len() <= q.max_hops {
            self.scan_neighbors(q, path, pool_path, balance, 0, st)
        } else {
            st
        }
    }
}

/// Whether `id` is among `ids`.
fn contains_address(ids: &Vec<Address>, id: &Address) -> (held: bool)
    ensures
        held == ids@.contains(*id),
{
    let mut i: usize = 0;
    while i < ids.len()
        invariant
            i <= ids.len(),
            forall|j: int| 0 <= j < i ==> ids[j] != *id,
        decreases ids.len() - i,
    {
        if ids[i] == *id {
            return true;
        }
        i += 1;
    }
    false
}

/// `ids` with `id` behind them.
fn with_address(ids: &Vec<Address>, id: Address) -> (longer: Vec<Address>)
    ensures
        longer@ == ids@.push(id),
{
    let mut longer: Vec<Address> = Vec::new();
    let mut i: usize = 0;
    while i < ids.len()
        invariant
            i <= ids.len(),
            longer@ == ids@.take(i as int),
        decreases ids.len() - i,
    {
        longer.push(ids[i]);
        assert(ids@.take(i + 1) =~= ids@.take(i as int).push(ids@[i as int]));
        i += 1;
    }
    assert(ids@.take(ids@.len() as int) =~= ids@);
    longer.push(id);
    longer
}

/// `tokens` with `token` behind them.
fn with_token(tokens: &Vec<usize>, token: usize) -> (longer: Vec<usize>)
    ensures
        longer@ == tokens@.push(token),
{
    let mut longer = tokens.clone();
    longer.push(token);
    longer
}

impl<P: PoolOperations> Arbitrager<P> {
    /// Asks the pool with handle `pool` for a price. This is the one place where a pool is
    /// asked, and it admits no pool that the run has quarantined.
    fn quote_pool(
        &self,
        pool: usize,
        a_to_b: bool,
        amount_in: u64,
        error_pools: &QuarantineSet,
    ) -> (paid: u64)
        requires
            pool < self.spec_pools().len(),
            pool < self.spec_records().len(),
            !error_pools@.contains(self.spec_records()[pool as int].id),
        ensures
            paid == self.spec_pools()[pool as int].quote(a_to_b, amount_in),
    {
        self.pools[pool].calc_quote(a_to_b, amount_in)
    }

    /// Tries the pool with handle `pool` toward `dst`.
    fn settle_pool(
        &self,
        q: &SearchParams,
        balance: u64,
        path: &Vec<usize>,
        pool_path: &Vec<Address>,
        dst: usize,
        pool: usize,
        error_pools: &mut QuarantineSet,
        report: &mut SearchReport,
    )
        requires
            self.wf(),
            path@.len() >= 1,
            pool < self.spec_records().len(),
        ensures
            state_of(*final(error_pools), *final(report)) == self.settle(
                *q,
                path@,
                pool_path@,
                balance,
                dst,
                pool,
                state_of(*old(error_pools), *old(report)),
            ),
        decreases hops_left(q.max_hops, path@.len()), 0nat, 0nat,
    {
        let record = self.records[pool];
        if error_pools.contains(&record.id) || contains_address(pool_path, &record.id) {
            return ;
        }
        let a_to_b = record.token_a == path[path.len() - 1];
        let paid = self.quote_pool(pool, a_to_b, balance, error_pools);
        if paid == NO_QUOTE {
            error_pools.insert(record.id);
            report.failures.push(
                PricingFailure {
                    pool: record.id,
                    src: path[path.len() - 1],
                    dst,
                    amount_in: balance,
                },
            );
        } else if dst == q.start {
            if paid > q.initial_amount && paid - q.initial_amount > q.profit_threshold {
                let opportunity = Opportunity {
                    token_path: with_token(path, dst),
                    pool_path: with_address(pool_path, record.id),
                    initial_amount: q.initial_amount,
                    final_amount: paid,
                    profit: paid - q.initial_amount,
                };
                report.opportunities.push(opportunity);
                assert(report.opportunities.deep_view() =~= old(
                    report,
                ).opportunities.deep_view().push(opportunity@));
            }
        } else if path.len() < q.max_hops {
            self.brute_force_search(
                q.start,
                q.initial_amount,
                paid,
                with_token(path, dst),
                with_address(pool_path, record.id),
                error_pools,
                q.max_hops,
                q.profit_threshold,
                report,
            );
        }
    }

    /// Tries in turn the pools between the last token of the path and `dst`, which is its
    /// `k`-th neighbour.
    fn scan_pools_toward(
        &self,
        q: &SearchParams,
        balance: u64,
        path: &Vec<usize>,
        pool_path: &Vec<Address>,
        dst: usize,
        k: usize,
        error_pools: &mut QuarantineSet,
        report: &mut SearchReport,
    )
        requires
            self.wf(),
            path@.len() >= 1,
            path@.last() < self.graph.edges@.len(),
            k < self.graph.edges@[path@.last() as int].dsts@.len(),
            dst == self.graph.edges@[path@.last() as int].dsts@[k as int],
        ensures
            state_of(*final(error_pools), *final(report)) == self.scan_pools(
                *q,
                path@,
                pool_path@,
                balance,
                dst,
                0,
                state_of(*old(error_pools), *old(report)),
            ),
        decreases hops_left(q.max_hops, path@.len()), 1nat, 0nat,
    {
        let src = path[path.len() - 1];
        let pools = &self.graph.edges[src].pools[k];
        let ghost goal = self.scan_pools(
            *q,
            path@,
            pool_path@,
            balance,
            dst,
            0,
            state_of(*error_pools, *report),
        );
        proof {
            assert(self.graph.edges@[src as int].wf());
            self.graph.edges@[src as int].lemma_pools_to_at(k as int);
            assert(self.spec_pools_between(src, dst) == pools@);
        }
        let mut j: usize = 0;
        while j < pools.len()
            invariant
                self.wf(),
                path@.len() >= 1,
                src == path@.last(),
                j <= pools@.len(),
                self.spec_pools_between(src, dst) == pools@,
                self.scan_pools(
                    *q,
                    path@,
                    pool_path@,
                    balance,
                    dst,
                    j as nat,
                    state_of(*error_pools, *report),
                ) == goal,
            decreases pools.len() - j,
        {
            let pool = pools[j];
            proof {
                assert(self.stands_between(
                    self.graph.spec_pools_between(src, dst)[j as int],
                    src,
                    dst,
                ));
            }
            self.settle_pool(q, balance, path, pool_path, dst, pool, error_pools, report);
            j += 1;
        }
    }

    /// Walks everything that continues `path`, which stands at its last token with
    /// `curr_balance` in hand and has traded in the pools of `pool_path`. Pools that fail to
    /// price a trade are put into `error_pools` and noted in `report`, and the cycles that
    /// pay are put behind those of `report`, in the order in which the walk meets them.
    pub fn brute_force_search(
        &self,
        start_mint_idx: usize,
        init_balance: u64,
        curr_balance: u64,
        path: Vec<usize>,
        pool_path: Vec<Address>,
        error_pools: &mut QuarantineSet,
        max_hops: usize,
        profit_threshold: u64,
        report: &mut SearchReport,
    )
        requires
            self.wf(),
        ensures
            state_of(*final(error_pools), *final(report)) == self.explore(
                (SearchParams {
                    start: start_mint_idx,
                    initial_amount: init_balance,
                    max_hops,
                    profit_threshold,
                }),
                path@,
                pool_path@,
                curr_balance,
                state_of(*old(error_pools), *old(report)),
            ),
            goes_on_from(
                state_of(*final(error_pools), *final(report)),
                state_of(*old(error_pools), *old(report)),
            ),
            ({
                let q = SearchParams {
                    start: start_mint_idx,
                    initial_amount: init_balance,
                    max_hops,
                    profit_threshold,
                };
                self.on_a_walk(q, path@, pool_path@, curr_balance) && self.all_sound(
                    q,
                    old(report).opportunities.deep_view(),
                ) ==> self.all_sound(q, final(report).opportunities.deep_view())
            }),
        decreases hops_left(max_hops, path@.len()), 3nat, 0nat,
    {
        let q = SearchParams {
            start: start_mint_idx,
            initial_amount: init_balance,
            max_hops,
            profit_threshold,
        };
        proof {
            self.lemma_explore(q, path@, pool_path@, curr_balance, state_of(*error_pools, *report));
        }
        if path.len() == 0 || path.len() > max_hops {
            return ;
        }
        let src = path[path.len() - 1];
        let ghost goal = self.explore(
            q,
            path@,
            pool_path@,
            curr_balance,
            state_of(*error_pools, *report),
        );
        if src >= self.graph.edges.len() {
            return ;
        }
        let dsts = &self.graph.edges[src].dsts;
        let mut k: usize = 0;
        while k < dsts.len()
            invariant
                self.wf(),
                1 <= path@.len() <= max_hops,
                src == path@.last(),
                src < self.graph.edges@.len(),
                dsts@ == self.graph.edges@[src as int].dsts@,
                k <= dsts@.len(),
                q == (SearchParams {
                    start: start_mint_idx,
                    initial_amount: init_balance,
                    max_hops,
                    profit_threshold,
                }),
                self.scan_neighbors(
                    q,
                    path@,
                    pool_path@,
                    curr_balance,
                    k as nat,
                    state_of(*error_pools, *report),
                ) == goal,
            decreases dsts.len() - k,
        {
            let dst = dsts[k];
            if dst == start_mint_idx || (path.len() < max_hops && !contains_handle(&path, dst)) {
                self.scan_pools_toward(
                    &q,
                    curr_balance,
                    &path,
                    &pool_path,
                    dst,
                    k,
                    error_pools,
                    report,
                );
            }
            k += 1;
        }
    }

    /// What a search from an empty list of finds comes to: everything that continues the
    /// path that holds the start token alone, with the initial amount in hand.
    pub open spec fn search_outcome(
        &self,
        q: SearchParams,
        quarantine: Set<Address>,
    ) -> SearchState {
        self.explore(
            q,
            seq![q.start],
            Seq::<Address>::empty(),
            q.initial_amount,
            SearchState {
                quarantine,
                found: Seq::<Cycle>::empty(),
                failures: Seq::<PricingFailure>::empty(),
            },
        )
    }

    /// Whether `result` and the quarantine `after` are what a search for `q` gives that
    /// begins with the quarantine `before`. A hop limit of zero or above `MAX_HOPS` is
    /// refused, and then a start token that the snapshot does not hold; a refused search
    /// leaves the quarantine as it was. Any other search succeeds with its outcome.
    pub open spec fn searched(
        &self,
        q: SearchParams,
        before: Set<Address>,
        after: Set<Address>,
        result: Result<SearchReport, SearchError>,
    ) -> bool {
        if q.max_hops == 0 || q.max_hops > MAX_HOPS {
            result == Err::<SearchReport, SearchError>(SearchError::InvalidMaxHops) && after
                == before
        } else if q.start >= self.spec_token_mints().len() {
            result == Err::<SearchReport, SearchError>(SearchError::UnknownStartToken)
                && after == before
        } else {
            &&& result is Ok
            &&& (SearchState {
                quarantine: after,
                found: result->Ok_0.opportunities.deep_view(),
                failures: result->Ok_0.failures@,
            }) == self.search_outcome(q, before)
        }
    }

    /// Searches the snapshot for cycles of at most `max_hops` trades that start and end at
    /// `start_token` and turn `initial_amount` into more than `initial_amount +
    /// profit_threshold`. The opportunities come in the order of their discovery. The pools
    /// in `error_pools` are not asked for a price, and those that fail to give one during
    /// the search are added to it and noted in the report.
    pub fn search(
        &self,
        start_token: usize,
        initial_amount: u64,
        max_hops: usize,
        profit_threshold: u64,
        error_pools: &mut QuarantineSet,
    ) -> (result: Result<SearchReport, SearchError>)
        requires
            self.wf(),
        ensures
            self.searched(
                (SearchParams { start: start_token, initial_amount, max_hops, profit_threshold }),
                old(error_pools)@,
                final(error_pools)@,
                result,
            ),
            old(error_pools)@.subset_of(final(error_pools)@),
            result matches Ok(report) ==> self.all_sound(
                (SearchParams { start: start_token, initial_amount, max_hops, profit_threshold }),
                report.opportunities.deep_view(),
            ) && failed_once_each(
                old(error_pools)@,
                state_of(*final(error_pools), report),
                0,
            ),
    {
        proof {
            let q = SearchParams { start: start_token, initial_amount, max_hops, profit_threshold };
            self.lemma_search_outcome_is_sound(q, error_pools@);
            self.lemma_pools_fail_once(q, error_pools@);
        }
        if max_hops == 0 || max_hops > MAX_HOPS {
            return Err(SearchError::InvalidMaxHops);
        }
        if start_token >= self.token_count() {
            return Err(SearchError::UnknownStartToken);
        }
        let mut report = SearchReport { opportunities: Vec::new(), failures: Vec::new() };
        let mut path: Vec<usize> = Vec::new();
        path.push(start_token);
        assert(path@ =~= seq![start_token]);
        assert(report.opportunities.deep_view() =~= Seq::<Cycle>::empty());
        self.brute_force_search(
            start_token,
            initial_amount,
            initial_amount,
            path,
            Vec::new(),
            error_pools,
            max_hops,
            profit_threshold,
            &mut report,
        );
        Ok(report)
    }
}

} // verus!
