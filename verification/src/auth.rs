//! The authorizations that accompany one call.

use vstd::prelude::*;
use crate::address::Address;

verus! {

/// The principals that have authorized the call being processed.
///
/// An operation that acts in the name of a principal asks the authorizer
/// before it changes anything.
pub struct Authorizer {
    approved: Vec<Address>,
}

impl View for Authorizer {
    type V = Set<Address>;

    /// The principals that have authorized the call.
    closed spec fn view(&self) -> Set<Address> {
        Set::new(|who: Address| self.approved@.contains(who))
    }
}

impl Authorizer {
    /// An authorizer that vouches for nobody.
    pub fn none() -> (a: Authorizer)
        ensures
            a@ == Set::<Address>::empty(),
    {
        let a = Authorizer { approved: Vec::new() };
        a
    }

    /// An authorizer that vouches for `who` alone.
    pub fn of(who: Address) -> (a: Authorizer)
        ensures
            a@ == Set::<Address>::empty().insert(who),
    {
        let mut a = Authorizer::none();
        a.approve(who);
        a
    }

    /// Records that `who` has authorized the call.
    pub fn approve(&mut self, who: Address)
        ensures
            final(self)@ == old(self)@.insert(who),
    {
        self.approved.push(who);
        proof {
            let before = old(self).approved@;
            let after = self.approved@;
            assert forall|p: Address| after.contains(p) <==> (before.contains(p) || p == who) by {
                if before.contains(p) {
                    let i = choose|i: int| 0 <= i < before.len() && before[i] == p;
                    assert(after[i] == p);
                }
                if p == who {
                    assert(after[before.len() as int] == p);
                }
            }
        }
    }

    /// Whether `who` has authorized the call.
    pub fn authorizes(&self, who: Address) -> (yes: bool)
        ensures
            yes == self@.contains(who),
    {
        let mut i: usize = 0;
        while i < self.approved.len()
            invariant
                i <= self.approved.len(),
                forall|j: int| 0 <= j < i ==> self.approved@[j] != who,
            decreases self.approved.len() - i,
        {
            if self.approved[i] == who {
                return true;
            }
            i = i + 1;
        }
        false
    }
}

} // verus!
