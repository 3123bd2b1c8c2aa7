use vstd::prelude::*;

verus! {

/// Represents a type of path.
#[derive(Debug, Clone, Copy, PartialEq)]
pub enum PathType {
    Bridge,
    Normal,
    Impossible,
}

impl PathType {
    /// Whether the path is a bridge.
    pub fn is_bridge(&self) -> (r: bool)
        ensures
            r == (*self is Bridge),
    {
        match self {
            PathType::Bridge => true,
            _ => false,
        }
    }

    /// Whether the path is a normal one.
    pub fn is_normal(&self) -> (r: bool)
        ensures
            r == (*self is Normal),
    {
        match self {
            PathType::Normal => true,
            _ => false,
        }
    }

    /// Whether the path cannot be built.
    pub fn is_impossible(&self) -> (r: bool)
        ensures
            r == (*self is Impossible),
    {
        match self {
            PathType::Impossible => true,
            _ => false,
        }
    }

    /// Whether another path may cross this one with a new intersection: only
    /// where it is neither impossible nor a bridge.
    pub fn can_create_intersection(&self) -> (r: bool)
        ensures
            r == (!(*self is Impossible) && !(*self is Bridge)),
            r == (*self is Normal),
    {
        !self.is_impossible() && !self.is_bridge()
    }
}

} // verus!
