//! A max-first priority structure holding inverted-ordering entries.  Because
//! each entry reverses its key's ordering, popping a maximal entry hands out
//! a least key: the "pop the smallest estimate" operation the searches need.

use vstd::prelude::*;

verus! {

use core::cmp::Ordering;
use crate::holder::InvCmpHolder;

/// The frontier of a running search: discovered-but-not-finalized nodes,
/// each tagged with the estimate it was discovered at.
pub struct Frontier {
    pub entries: Vec<InvCmpHolder<usize>>,
}

impl Frontier {
    /// An empty frontier.
    pub fn new() -> (r: Frontier)
        ensures
            r.entries@.len() == 0,
    {
        Frontier { entries: Vec::new() }
    }

    /// Adds an entry.
    pub fn push(&mut self, h: InvCmpHolder<usize>)
        ensures
            final(self).entries@ == old(self).entries@.push(h),
    {
        self.entries.push(h);
    }

    /// Removes and returns a maximal entry under the inverted holder
    /// ordering, that is, one whose key is `<=` every key present; `None`
    /// exactly when the frontier is empty.  Every remaining entry was
    /// already present.
    pub fn pop_max(&mut self) -> (r: Option<InvCmpHolder<usize>>)
        ensures
            match r {
                None => final(self).entries@ == old(self).entries@ && old(self).entries@.len() == 0,
                Some(h) => {
                    &&& exists|i: int|
                        0 <= i < old(self).entries@.len() && h == old(self).entries@[i]
                    &&& final(self).entries@.len() == old(self).entries@.len() - 1
                    &&& forall|j: int|
                        #![trigger final(self).entries@[j]]
                        0 <= j < final(self).entries@.len() ==> exists|i: int|
                            #![trigger old(self).entries@[i]]
                            0 <= i < old(self).entries@.len() && final(self).entries@[j] == old(
                                self,
                            ).entries@[i]
                    &&& forall|i: int|
                        0 <= i < old(self).entries@.len() ==> h.key <= old(self).entries@[i].key
                    &&& forall|j: int|
                        #![trigger old(self).entries@[j]]
                        0 <= j < old(self).entries@.len() ==> (old(self).entries@[j] == h
                            || exists|j2: int|
                            #![trigger final(self).entries@[j2]]
                            0 <= j2 < final(self).entries@.len() && final(self).entries@[j2] == old(
                                self,
                            ).entries@[j])
                },
            },
    {
        if self.entries.len() == 0 {
            return None;
        }
        let mut best: usize = 0;
        let mut j: usize = 1;
        while j < self.entries.len()
            invariant
                self.entries@ == old(self).entries@,
                self.entries@.len() > 0,
                best < j,
                j <= self.entries@.len(),
                forall|k: int|
                    0 <= k < j ==> self.entries@[best as int].key <= self.entries@[k].key,
            decreases self.entries@.len() - j,
        {
            let gt = match self.entries[j].partial_cmp(&self.entries[best]) {
                Some(Ordering::Greater) => true,
                _ => false,
            };
            if gt {
                best = j;
            }
            j += 1;
        }
        let h = self.entries.remove(best);
        proof {
            assert forall|k: int| #![trigger self.entries@[k]] 0 <= k < self.entries@.len()
                implies exists|i: int|
                #![trigger old(self).entries@[i]]
                0 <= i < old(self).entries@.len() && self.entries@[k] == old(self).entries@[i] by {
                if k < best {
                    assert(self.entries@[k] == old(self).entries@[k]);
                } else {
                    assert(self.entries@[k] == old(self).entries@[k + 1]);
                }
            }
            assert forall|j: int| #![trigger old(self).entries@[j]] 0 <= j < old(
                self,
            ).entries@.len() implies (old(self).entries@[j] == h || exists|j2: int|
                #![trigger self.entries@[j2]]
                0 <= j2 < self.entries@.len() && self.entries@[j2] == old(self).entries@[j]) by {
                if j < best {
                    assert(self.entries@[j] == old(self).entries@[j]);
                } else if j > best {
                    assert(self.entries@[j - 1] == old(self).entries@[j]);
                }
            }
        }
        Some(h)
    }
}

} // verus!
