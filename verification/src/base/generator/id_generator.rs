use vstd::prelude::*;

verus! {

/// IdGenerator hands out identifiers one after another, starting at zero.
///
/// It does not check the uniqueness of the identifiers against anything:
/// it only remembers which identifier comes next.
#[derive(Debug, Clone)]
pub struct IdGenerator {
    next_id: usize,
}

impl IdGenerator {
    /// The identifier that the next call of `generate_id` hands out.
    pub closed spec fn next(&self) -> nat {
        self.next_id as nat
    }

    /// The next identifier fits in a `usize`.
    pub proof fn lemma_next_fits(&self)
        ensures
            self.next() <= usize::MAX,
    {
    }

    /// A generator whose first identifier is zero.
    pub fn new() -> (g: Self)
        ensures
            g.next() == 0,
    {
        Self { next_id: 0 }
    }

    /// Whether another identifier can be handed out.
    pub fn can_generate(&self) -> (r: bool)
        ensures
            r == (self.next() < usize::MAX),
    {
        self.next_id < usize::MAX
    }

    /// Hand out the next identifier and move on to the one after it.
    pub fn generate_id(&mut self) -> (id: usize)
        requires
            old(self).next() < usize::MAX,
        ensures
            id == old(self).next(),
            final(self).next() == old(self).next() + 1,
    {
        let id = self.next_id;
        self.next_id = self.next_id + 1;
        id
    }
}

} // verus!
