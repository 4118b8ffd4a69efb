//! The pools that failed to price a trade during one search run.

use crate::address::Address;
use vstd::prelude::*;

verus! {

/// Pools found unusable in the current run. It starts empty, only grows, and is thrown away
/// with the run.
pub struct QuarantineSet {
    pub(crate) ids: Vec<Address>,
}

impl View for QuarantineSet {
    type V = Set<Address>;

    open(crate) spec fn view(&self) -> Set<Address> {
        self.ids@.to_set()
    }
}

impl QuarantineSet {
    pub fn new() -> (set: QuarantineSet)
        ensures
            set@ == Set::<Address>::empty(),
    {
        let set = QuarantineSet { ids: Vec::new() };
        assert(set.ids@.to_set() =~= Set::<Address>::empty());
        set
    }

    pub fn contains(&self, id: &Address) -> (held: bool)
        ensures
            held == self@.contains(*id),
    {
        let mut i: usize = 0;
        while i < self.ids.len()
            invariant
                i <= self.ids.len(),
                forall|j: int| 0 <= j < i ==> self.ids[j] != *id,
            decreases self.ids.len() - i,
        {
            if self.ids[i] == *id {
                return true;
            }
            i += 1;
        }
        false
    }

    pub fn insert(&mut self, id: Address)
        ensures
            final(self)@ == old(self)@.insert(id),
    {
        if !self.contains(&id) {
            self.ids.push(id);
            assert(self.ids@.to_set() =~= old(self).ids@.to_set().insert(id)) by {
                assert forall|a: Address| #[trigger]
                    self.ids@.contains(a) <==> old(self).ids@.contains(a) || a == id by {
                    if old(self).ids@.contains(a) {
                        let k = choose|k: int|
                            0 <= k < old(self).ids@.len() && old(self).ids@[k] == a;
                        assert(self.ids@[k] == a);
                    }
                    if a == id {
                        assert(self.ids@[self.ids@.len() - 1] == a);
                    }
                }
            }
        } else {
            assert(old(self)@.insert(id) =~= old(self)@);
        }
    }

}

} // verus!
