//! Dense indices for the tokens met while pools are read in.

use crate::address::Address;
use vstd::prelude::*;

verus! {

/// Gives each token identity the next unused index, starting at 0, on its first appearance.
/// An index, once given, stays with its token; nothing is ever removed.
pub struct TokenRegistry {
    pub(crate) mints: Vec<Address>,
}

impl View for TokenRegistry {
    type V = Seq<Address>;

    /// The identities in index order: `self@[i]` is the token with index `i`.
    open(crate) spec fn view(&self) -> Seq<Address> {
        self.mints@
    }
}

/// The identities once `mint` has an index: unchanged where it had one, else with `mint`
/// behind them.
pub open spec fn registered(mints: Seq<Address>, mint: Address) -> Seq<Address> {
    if mints.contains(mint) {
        mints
    } else {
        mints.push(mint)
    }
}

impl TokenRegistry {
    /// No identity has two indices.
    pub open spec fn wf(&self) -> bool {
        self@.no_duplicates()
    }

    pub fn new() -> (registry: TokenRegistry)
        ensures
            registry.wf(),
            registry@ == Seq::<Address>::empty(),
    {
        TokenRegistry { mints: Vec::new() }
    }

    pub fn len(&self) -> (n: usize)
        ensures
            n == self@.len(),
    {
        self.mints.len()
    }

    /// The index of `mint`, if it has one.
    pub fn index_of(&self, mint: &Address) -> (found: Option<usize>)
        ensures
            match found {
                Some(i) => i < self@.len() && self@[i as int] == *mint,
                None => !self@.contains(*mint),
            },
    {
        let mut i: usize = 0;
        while i < self.mints.len()
            invariant
                i <= self.mints.len(),
                forall|j: int| 0 <= j < i ==> self.mints[j] != *mint,
            decreases self.mints.len() - i,
        {
            if self.mints[i] == *mint {
                return Some(i);
            }
            i += 1;
        }
        None
    }

    /// The index of `mint`: the one it already has, or else the next unused one, which it
    /// is given now.
    pub fn get_or_create(&mut self, mint: Address) -> (index: usize)
        requires
            old(self).wf(),
        ensures
            final(self).wf(),
            index < final(self)@.len(),
            final(self)@[index as int] == mint,
            final(self)@ == registered(old(self)@, mint),
            !old(self)@.contains(mint) ==> index == old(self)@.len(),
    {
        match self.index_of(&mint) {
            Some(i) => i,
            None => {
                let i = self.mints.len();
                self.mints.push(mint);
                i
            },
        }
    }

    /// The token that has index `index`, if any has.
    pub fn index_to_identity(&self, index: usize) -> (mint: Option<Address>)
        ensures
            mint == if index < self@.len() {
                Some(self@[index as int])
            } else {
                None
            },
    {
        if index < self.mints.len() {
            Some(self.mints[index])
        } else {
            None
        }
    }
}

} // verus!
