use vstd::prelude::*;

use crate::types::PointIdentity;

verus! {

/// The identities observed so far, each recorded once, in order of observation.
pub struct SeenIdentities {
    ids: Vec<PointIdentity>,
}

impl View for SeenIdentities {
    type V = Seq<PointIdentity>;

    closed spec fn view(&self) -> Seq<PointIdentity> {
        self.ids@
    }
}

impl SeenIdentities {
    pub fn new() -> (r: SeenIdentities)
        ensures
            r@ == Seq::<PointIdentity>::empty(),
    {
        SeenIdentities { ids: Vec::new() }
    }

    pub fn contains(&self, id: PointIdentity) -> (r: bool)
        ensures
            r == self@.contains(id),
    {
        let mut i: usize = 0;
        while i < self.ids.len()
            invariant
                0 <= i <= self.ids.len(),
                forall|j: int| 0 <= j < i ==> self.ids@[j] != id,
            decreases self.ids.len() - i,
        {
            if self.ids[i] == id {
                assert(self.ids@[i as int] == id);
                return true;
            }
            i = i + 1;
        }
        false
    }

    /// True the first time `id` is observed, false ever after; the identity is
    /// recorded either way.
    pub fn observe(&mut self, id: PointIdentity) -> (r: bool)
        ensures
            r == !old(self)@.contains(id),
            final(self)@ == (if r {
                old(self)@.push(id)
            } else {
                old(self)@
            }),
    {
        if self.contains(id) {
            false
        } else {
            self.ids.push(id);
            true
        }
    }

    pub fn len(&self) -> (r: usize)
        ensures
            r == self@.len(),
    {
        self.ids.len()
    }
}

} // verus!
