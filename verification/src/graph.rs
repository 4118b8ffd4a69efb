//! The multigraph of tradable token pairs: which pools trade one token against another.
//!
//! Tokens are dense indices and pools are handles, the positions of the pools in the arena
//! of their owner. Every sequence keeps the order in which its items were added, so that a
//! walk over the graph is the same on every run.

use vstd::prelude::*;

verus! {

/// What leaves one token: its neighbouring tokens in the order in which they first appeared,
/// and for each of them the pools that trade between the two, in the order of their arrival.
pub struct PoolEdge {
    pub(crate) dsts: Vec<usize>,
    pub(crate) pools: Vec<Vec<usize>>,
}

impl PoolEdge {
    /// Each neighbour stands once, with at least one pool, and no pool stands twice with it.
    pub open(crate) spec fn wf(&self) -> bool {
        &&& self.dsts@.len() == self.pools@.len()
        &&& self.dsts@.no_duplicates()
        &&& forall|k: int|
            0 <= k < self.pools@.len() ==> (#[trigger] self.pools@[k])@.len() > 0
                && self.pools@[k]@.no_duplicates()
    }

    pub open(crate) spec fn neighbors(&self) -> Seq<usize> {
        self.dsts@
    }

    pub open(crate) spec fn pools_to(&self, dst: usize) -> Seq<usize> {
        if self.dsts@.contains(dst) {
            self.pools@[self.dsts@.index_of(dst)]@
        } else {
            Seq::empty()
        }
    }

    /// With no neighbour twice, the pools toward the `k`-th neighbour are the `k`-th list.
    pub(crate) proof fn lemma_pools_to_at(&self, k: int)
        requires
            self.wf(),
            0 <= k < self.dsts@.len(),
        ensures
            self.pools_to(self.dsts@[k]) == self.pools@[k]@,
            self.dsts@.contains(self.dsts@[k]),
    {
        let dst = self.dsts@[k];
        assert(self.dsts@.contains(dst));
        let i = self.dsts@.index_of(dst);
        assert(self.dsts@[i] == dst);
    }

    pub(crate) fn new() -> (edge: PoolEdge)
        ensures
            edge.wf(),
            edge.neighbors() == Seq::<usize>::empty(),
            forall|dst: usize| #[trigger] edge.pools_to(dst) == Seq::<usize>::empty(),
    {
        PoolEdge { dsts: Vec::new(), pools: Vec::new() }
    }

    /// Where `dst` stands among the neighbours.
    pub(crate) fn position(&self, dst: usize) -> (found: Option<usize>)
        ensures
            match found {
                Some(k) => k < self.dsts@.len() && self.dsts@[k as int] == dst,
                None => !self.dsts@.contains(dst),
            },
    {
        let mut k: usize = 0;
        while k < self.dsts.len()
            invariant
                k <= self.dsts.len(),
                forall|j: int| 0 <= j < k ==> self.dsts[j] != dst,
            decreases self.dsts.len() - k,
        {
            if self.dsts[k] == dst {
                return Some(k);
            }
            k += 1;
        }
        None
    }

    /// Puts `pool` behind the pools toward `dst`, unless it is among them already.
    pub(crate) fn insert(&mut self, dst: usize, pool: usize)
        requires
            old(self).wf(),
        ensures
            final(self).wf(),
            final(self).neighbors() == if old(self).neighbors().contains(dst) {
                old(self).neighbors()
            } else {
                old(self).neighbors().push(dst)
            },
            final(self).pools_to(dst) == if old(self).pools_to(dst).contains(pool) {
                old(self).pools_to(dst)
            } else {
                old(self).pools_to(dst).push(pool)
            },
            forall|other: usize|
                other != dst ==> #[trigger] final(self).pools_to(other) == old(self).pools_to(
                    other,
                ),
    {
        match self.position(dst) {
            Some(k) => {
                proof {
                    self.lemma_pools_to_at(k as int);
                }
                if !contains_handle(&self.pools[k], pool) {
                    self.pools[k].push(pool);
                }
                proof {
                    assert(self.wf());
                    self.lemma_pools_to_at(k as int);
                    assert forall|other: usize| other != dst implies #[trigger] self.pools_to(
                        other,
                    ) == old(self).pools_to(other) by {
                        if self.dsts@.contains(other) {
                            let i = self.dsts@.index_of(other);
                            assert(i != k);
                        }
                    }
                }
            },
            None => {
                let mut lane: Vec<usize> = Vec::new();
                lane.push(pool);
                self.dsts.push(dst);
                self.pools.push(lane);
                proof {
                    let n = old(self).dsts@.len() as int;
                    assert(self.dsts@[n] == dst);
                    assert(self.wf());
                    self.lemma_pools_to_at(n);
                    assert(self.pools@[n]@ =~= Seq::<usize>::empty().push(pool));
                    assert forall|other: usize| other != dst implies #[trigger] self.pools_to(
                        other,
                    ) == old(self).pools_to(other) by {
                        if old(self).dsts@.contains(other) {
                            let i = old(self).dsts@.index_of(other);
                            assert(self.dsts@[i] == other);
                            old(self).lemma_pools_to_at(i);
                            self.lemma_pools_to_at(i);
                        } else if self.dsts@.contains(other) {
                            let i = self.dsts@.index_of(other);
                            assert(i < n);
                            assert(old(self).dsts@[i] == other);
                        }
                    }
                }
            },
        }
    }
}

/// The liquidity graph: for each token, what leaves it. Edges have no direction: a pool
/// between two tokens stands with each of them.
pub struct PoolGraph {
    pub(crate) edges: Vec<PoolEdge>,
}

impl PoolGraph {
    /// The number of tokens the graph has room for: the token indices below it are nodes.
    pub open(crate) spec fn spec_tokens(&self) -> nat {
        self.edges@.len()
    }

    /// The tokens that `src` can be traded against, in the order in which they first
    /// appeared beside it.
    pub open(crate) spec fn spec_neighbors(&self, src: usize) -> Seq<usize> {
        if src < self.edges@.len() {
            self.edges@[src as int].neighbors()
        } else {
            Seq::empty()
        }
    }

    /// The pools that trade `src` against `dst`, in the order in which they were added.
    pub open(crate) spec fn spec_pools_between(&self, src: usize, dst: usize) -> Seq<usize> {
        if src < self.edges@.len() {
            self.edges@[src as int].pools_to(dst)
        } else {
            Seq::empty()
        }
    }

    /// Every neighbour is a node and stands once beside its token; the pools of a pair are
    /// distinct, and each of them is found from either end.
    pub open(crate) spec fn wf(&self) -> bool {
        &&& forall|src: int| 0 <= src < self.edges@.len() ==> (#[trigger] self.edges@[src]).wf()
        &&& forall|src: usize, k: int|
            0 <= k < self.spec_neighbors(src).len() ==> (#[trigger] self.spec_neighbors(src)[k])
                < self.edges@.len()
        &&& forall|src: usize, dst: usize, pool: usize| #[trigger]
            self.spec_pools_between(src, dst).contains(pool) ==> self.spec_pools_between(
                dst,
                src,
            ).contains(pool)
    }

    /// The neighbours of a token are those it shares a pool with.
    pub proof fn lemma_neighbors_have_pools(&self, src: usize, dst: usize)
        requires
            self.wf(),
        ensures
            self.spec_neighbors(src).contains(dst) <==> self.spec_pools_between(src, dst).len() > 0,
            self.spec_pools_between(src, dst).no_duplicates(),
            self.spec_neighbors(src).no_duplicates(),
    {
        if src < self.edges@.len() {
            let edge = self.edges@[src as int];
            assert(edge.wf());
            if edge.dsts@.contains(dst) {
                let k = edge.dsts@.index_of(dst);
                assert(edge.pools@[k]@.len() > 0);
            }
        }
    }

    /// The graph without tokens.
    pub fn new() -> (graph: PoolGraph)
        ensures
            graph.wf(),
            graph.spec_tokens() == 0,
            forall|src: usize| #[trigger] graph.spec_neighbors(src) == Seq::<usize>::empty(),
            forall|src: usize, dst: usize| #[trigger]
                graph.spec_pools_between(src, dst) == Seq::<usize>::empty(),
    {
        PoolGraph { edges: Vec::new() }
    }

    /// The number of tokens the graph has room for.
    pub fn tokens(&self) -> (n: usize)
        ensures
            n == self.spec_tokens(),
    {
        self.edges.len()
    }

    /// The tokens that `token` can be traded against, in the order in which they first
    /// appeared beside it; none for a token the graph does not hold.
    pub fn neighbors(&self, token: usize) -> (dsts: Vec<usize>)
        ensures
            dsts@ == self.spec_neighbors(token),
    {
        if token < self.edges.len() {
            self.edges[token].dsts.clone()
        } else {
            Vec::new()
        }
    }

    /// The pools that trade `src` against `dst`, in the order in which they were added;
    /// none where the two share no pool.
    pub fn pools_between(&self, src: usize, dst: usize) -> (pools: Vec<usize>)
        requires
            self.wf(),
        ensures
            pools@ == self.spec_pools_between(src, dst),
    {
        if src < self.edges.len() {
            match self.edges[src].position(dst) {
                Some(k) => {
                    proof {
                        self.edges@[src as int].lemma_pools_to_at(k as int);
                    }
                    self.edges[src].pools[k].clone()
                },
                None => Vec::new(),
            }
        } else {
            Vec::new()
        }
    }

    /// Makes room for the tokens below `tokens`.
    fn grow(&mut self, tokens: usize)
        requires
            old(self).wf(),
        ensures
            final(self).wf(),
            final(self).spec_tokens() == if tokens > old(self).spec_tokens() {
                tokens as nat
            } else {
                old(self).spec_tokens()
            },
            forall|src: usize| #[trigger]
                final(self).spec_neighbors(src) == old(self).spec_neighbors(src),
            forall|src: usize, dst: usize| #[trigger]
                final(self).spec_pools_between(src, dst) == old(self).spec_pools_between(src, dst),
    {
        while self.edges.len() < tokens
            invariant
                self.wf(),
                self.edges@.len() >= old(self).edges@.len(),
                self.edges@.len() == old(self).edges@.len() || self.edges@.len() <= tokens,
                forall|src: usize| #[trigger]
                    self.spec_neighbors(src) == old(self).spec_neighbors(src),
                forall|src: usize, dst: usize| #[trigger]
                    self.spec_pools_between(src, dst) == old(self).spec_pools_between(src, dst),
            decreases tokens - self.edges.len(),
        {
            let ghost before = *self;
            self.edges.push(PoolEdge::new());
            proof {
                assert forall|src: usize| #[trigger]
                    self.spec_neighbors(src) == before.spec_neighbors(src) by {
                    if src < before.edges@.len() {
                        assert(self.edges@[src as int] == before.edges@[src as int]);
                    }
                }
                assert forall|src: usize, dst: usize| #[trigger]
                    self.spec_pools_between(src, dst) == before.spec_pools_between(src, dst) by {
                    if src < before.edges@.len() {
                        assert(self.edges@[src as int] == before.edges@[src as int]);
                    }
                }
                assert forall|src: int| 0 <= src < self.edges@.len() implies (
                #[trigger] self.edges@[src]).wf() by {
                    if src < before.edges@.len() {
                        assert(self.edges@[src] == before.edges@[src]);
                    }
                }
            }
        }
    }

    /// Adds the pool with handle `pool` between the tokens `idx0` and `idx1`: it is put
    /// behind the pools of the pair, seen from either token, unless it stands there already.
    /// The graph grows to hold both tokens.
    pub fn add_pool(&mut self, idx0: usize, idx1: usize, pool: usize)
        requires
            old(self).wf(),
            idx0 < usize::MAX,
            idx1 < usize::MAX,
        ensures
            final(self).wf(),
            final(self).spec_tokens() == old(self).grown(idx0, idx1),
            forall|src: usize, dst: usize| #[trigger]
                final(self).spec_pools_between(src, dst) == old(self).with_pool(
                    idx0,
                    idx1,
                    pool,
                    src,
                    dst,
                ),
            forall|src: usize| #[trigger]
                final(self).spec_neighbors(src) == old(self).with_neighbor(idx0, idx1, src),
    {
        let top = if idx0 > idx1 { idx0 } else { idx1 };
        self.grow(top + 1);
        let ghost grown = *self;
        self.edges[idx0].insert(idx1, pool);
        let ghost half = *self;
        proof {
            assert forall|src: usize, dst: usize| #[trigger]
                half.spec_pools_between(src, dst) == ({
                    let was = grown.spec_pools_between(src, dst);
                    if src == idx0 && dst == idx1 && !was.contains(pool) {
                        was.push(pool)
                    } else {
                        was
                    }
                }) by {
                if src < grown.edges@.len() && src != idx0 {
                    assert(half.edges@[src as int] == grown.edges@[src as int]);
                }
            }
        }
        self.edges[idx1].insert(idx0, pool);
        proof {
            assert forall|src: usize, dst: usize| #[trigger]
                self.spec_pools_between(src, dst) == old(self).with_pool(
                    idx0,
                    idx1,
                    pool,
                    src,
                    dst,
                ) by {
                if src < half.edges@.len() && src != idx1 {
                    assert(self.edges@[src as int] == half.edges@[src as int]);
                }
                assert(grown.spec_pools_between(src, dst) == old(self).spec_pools_between(
                    src,
                    dst,
                ));
                if src == idx1 && dst == idx0 && idx0 == idx1 {
                    assert(half.spec_pools_between(src, dst).contains(pool)) by {
                        let s = grown.spec_pools_between(src, dst);
                        if !s.contains(pool) {
                            assert(s.push(pool)[s.len() as int] == pool);
                        }
                    }
                }
            }
            assert forall|src: usize| #[trigger]
                self.spec_neighbors(src) == old(self).with_neighbor(idx0, idx1, src) by {
                assert(grown.spec_neighbors(src) == old(self).spec_neighbors(src));
                if src < grown.edges@.len() && src != idx0 {
                    assert(half.edges@[src as int] == grown.edges@[src as int]);
                }
                if src < half.edges@.len() && src != idx1 {
                    assert(self.edges@[src as int] == half.edges@[src as int]);
                }
                if src == idx0 && idx0 == idx1 {
                    assert(half.spec_neighbors(src).contains(idx0)) by {
                        let s = grown.spec_neighbors(src);
                        if !s.contains(idx0) {
                            assert(s.push(idx0)[s.len() as int] == idx0);
                        }
                    }
                }
            }
            assert forall|src: int| 0 <= src < self.edges@.len() implies (
            #[trigger] self.edges@[src]).wf() by {
                if src != idx1 {
                    assert(self.edges@[src] == half.edges@[src]);
                    if src != idx0 {
                        assert(half.edges@[src] == grown.edges@[src]);
                    }
                }
            }
            assert forall|src: usize, k: int| 0 <= k < self.spec_neighbors(src).len() implies (
            #[trigger] self.spec_neighbors(src)[k]) < self.edges@.len() by {
                let was = old(self).spec_neighbors(src);
                if k < was.len() {
                    assert(was[k] < old(self).edges@.len());
                }
            }
            assert forall|src: usize, dst: usize, p: usize| #[trigger]
                self.spec_pools_between(src, dst).contains(p) implies self.spec_pools_between(
                dst,
                src,
            ).contains(p) by {
                let was = old(self).spec_pools_between(src, dst);
                let back = old(self).spec_pools_between(dst, src);
                if was.contains(p) {
                    assert(back.contains(p));
                    let i = choose|i: int| 0 <= i < back.len() && back[i] == p;
                    assert(self.spec_pools_between(dst, src)[i] == p);
                } else {
                    assert(p == pool);
                    assert((src == idx0 && dst == idx1) || (src == idx1 && dst == idx0));
                    if back.contains(pool) {
                        let i = choose|i: int| 0 <= i < back.len() && back[i] == p;
                        assert(self.spec_pools_between(dst, src)[i] == p);
                    } else {
                        assert(self.spec_pools_between(dst, src)[back.len() as int] == p);
                    }
                }
            }
        }
    }

    /// The token count after room was made for `idx0` and `idx1`.
    pub open(crate) spec fn grown(&self, idx0: usize, idx1: usize) -> nat {
        let top = if idx0 > idx1 { idx0 } else { idx1 };
        if top + 1 > self.spec_tokens() {
            (top + 1) as nat
        } else {
            self.spec_tokens()
        }
    }

    /// The pools between `src` and `dst` once `pool` was added between `idx0` and `idx1`.
    pub open(crate) spec fn with_pool(
        &self,
        idx0: usize,
        idx1: usize,
        pool: usize,
        src: usize,
        dst: usize,
    ) -> Seq<usize> {
        let was = self.spec_pools_between(src, dst);
        let touched = (src == idx0 && dst == idx1) || (src == idx1 && dst == idx0);
        if touched && !was.contains(pool) {
            was.push(pool)
        } else {
            was
        }
    }

    /// The neighbours of `src` once a pool was added between `idx0` and `idx1`.
    pub open(crate) spec fn with_neighbor(&self, idx0: usize, idx1: usize, src: usize) -> Seq<
        usize,
    > {
        let was = self.spec_neighbors(src);
        if src == idx0 && !was.contains(idx1) {
            was.push(idx1)
        } else if src == idx1 && !was.contains(idx0) {
            was.push(idx0)
        } else {
            was
        }
    }
}

/// Whether `handle` is among `handles`.
pub(crate) fn contains_handle(handles: &Vec<usize>, handle: usize) -> (held: bool)
    ensures
        held == handles@.contains(handle),
{
    let mut i: usize = 0;
    while i < handles.len()
        invariant
            i <= handles.len(),
            forall|j: int| 0 <= j < i ==> handles[j] != handle,
        decreases handles.len() - i,
    {
        if handles[i] == handle {
            return true;
        }
        i += 1;
    }
    false
}

} // verus!
