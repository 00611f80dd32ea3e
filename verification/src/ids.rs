use vstd::prelude::*;

verus! {

/// Hands out entity ids: each call of `new_id` gives the next unused number,
/// starting from zero.
#[derive(Debug)]
pub struct IdProvider {
    next_free_id: usize,
}

/// A unit controlled by a connected client.
#[derive(Debug, Clone, Copy, PartialEq, Eq)]
pub struct Unit {
    pub client_id: usize,
}

impl IdProvider {
    /// The next id that `new_id` will return.
    pub closed spec fn next(self) -> nat {
        self.next_free_id as nat
    }

    /// The ids handed out so far: every number below `next`.
    pub open spec fn issued(self) -> Set<nat> {
        Set::new(|i: nat| i < self.next())
    }

    /// A provider that has handed out no id yet.
    pub fn new() -> (p: IdProvider)
        ensures
            p.next() == 0,
    {
        IdProvider { next_free_id: 0 }
    }

    /// The id that the next call of `new_id` will return.
    pub fn peek(&self) -> (id: usize)
        ensures
            id == self.next(),
    {
        self.next_free_id
    }

    /// Returns the next free id and marks it as used.
    ///
    /// Running out of ids is an error of the program: when every `usize` has
    /// been handed out the provider stops, so this call requires that one is
    /// still left.
    pub fn new_id(&mut self) -> (id: usize)
        requires
            old(self).next() < usize::MAX,
        ensures
            id == old(self).next(),
            final(self).next() == old(self).next() + 1,
            !old(self).issued().contains(id as nat),
            final(self).issued() == old(self).issued().insert(id as nat),
    {
        let id = self.next_free_id;
        self.next_free_id = self.next_free_id + 1;
        assert(self.issued() =~= old(self).issued().insert(id as nat));
        id
    }
}

impl Default for IdProvider {
    fn default() -> (p: IdProvider)
        ensures
            p.next() == 0,
    {
        IdProvider::new()
    }
}

} // verus!
