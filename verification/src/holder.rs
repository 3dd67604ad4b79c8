//! The cost-ordering adapter: a (key, payload) wrapper whose ordering is the
//! reverse of the key's natural ordering, so that a max-first priority
//! structure over wrapped entries hands out the least key first.

use vstd::prelude::*;

verus! {

use core::cmp::Ordering;

/// Wraps a comparison key and an arbitrary payload.  Equality is defined on
/// the key alone, and the ordering is the reverse of the key's: the holder
/// with the smaller key is the greater holder.
pub struct InvCmpHolder<P> {
    pub key: u64,
    pub payload: P,
}

impl<P> PartialEq for InvCmpHolder<P> {
    fn eq(&self, other: &InvCmpHolder<P>) -> (r: bool) {
        self.key == other.key
    }
}

impl<P> Eq for InvCmpHolder<P> {

}

impl<P> vstd::std_specs::cmp::PartialEqSpecImpl for InvCmpHolder<P> {
    open spec fn obeys_eq_spec() -> bool {
        true
    }

    open spec fn eq_spec(&self, other: &InvCmpHolder<P>) -> bool {
        self.key == other.key
    }
}

impl<P> PartialOrd for InvCmpHolder<P> {
    fn partial_cmp(&self, other: &InvCmpHolder<P>) -> (r: Option<Ordering>) {
        if other.key < self.key {
            Some(Ordering::Less)
        } else if other.key == self.key {
            Some(Ordering::Equal)
        } else {
            Some(Ordering::Greater)
        }
    }
}

impl<P> vstd::std_specs::cmp::PartialOrdSpecImpl for InvCmpHolder<P> {
    open spec fn obeys_partial_cmp_spec() -> bool {
        true
    }

    open spec fn partial_cmp_spec(&self, other: &InvCmpHolder<P>) -> Option<Ordering> {
        if other.key < self.key {
            Some(Ordering::Less)
        } else if other.key == self.key {
            Some(Ordering::Equal)
        } else {
            Some(Ordering::Greater)
        }
    }
}

} // verus!
