use std::cmp::Ordering;
use vstd::prelude::*;
use vstd::std_specs::cmp::PartialOrdSpecImpl;

verus! {

/// A numeric value that represents a stage in the network growth process.
///
/// Stage expresses the hierarchy of the path, for example, Highway (stage = 0) -> Street (stage = 1) -> Alley (stage = 2).
/// The specific meaning of the stage is determined by the context.
///
/// Stage are propagated to the next extended nodes, and can be incremented when the path is branched.
#[derive(Debug, Default, Clone, Copy, PartialEq, Eq, Ord)]
pub struct Stage(usize);

impl Stage {
    /// The number that this stage holds.
    pub closed spec fn num(self) -> nat {
        self.0 as nat
    }

    /// Initial stage.
    pub fn initial() -> (s: Self)
        ensures
            s.num() == 0,
    {
        Self(0)
    }

    /// Create a new stage from a number.
    pub fn from_num(stage: usize) -> (s: Self)
        ensures
            s.num() == stage,
    {
        Self(stage)
    }

    /// Get the number of the stage.
    pub fn get_num(&self) -> (n: usize)
        ensures
            n == self.num(),
    {
        self.0
    }

    /// Increment the stage by one.
    pub fn incremented(self) -> (s: Self)
        requires
            self.num() < usize::MAX,
        ensures
            s.num() == self.num() + 1,
    {
        Self(self.0 + 1)
    }
}

impl PartialOrd for Stage {
    /// Stages are ordered by their numbers.
    fn partial_cmp(&self, other: &Self) -> (r: Option<Ordering>) {
        if self.0 < other.0 {
            Some(Ordering::Less)
        } else if self.0 == other.0 {
            Some(Ordering::Equal)
        } else {
            Some(Ordering::Greater)
        }
    }
}

impl PartialOrdSpecImpl for Stage {
    open spec fn obeys_partial_cmp_spec() -> bool {
        true
    }

    open spec fn partial_cmp_spec(&self, other: &Self) -> Option<Ordering> {
        if self.num() < other.num() {
            Some(Ordering::Less)
        } else if self.num() == other.num() {
            Some(Ordering::Equal)
        } else {
            Some(Ordering::Greater)
        }
    }
}

} // verus!
