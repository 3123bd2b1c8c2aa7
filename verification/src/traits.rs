use vstd::prelude::*;

verus! {

/// The kind of ground at a site.
pub enum TerrainType {
    Land,
    Water,
    Void,
}

impl TerrainType {
    /// Whether the ground is land.
    pub fn is_land(&self) -> (r: bool)
        ensures
            r == (*self is Land),
    {
        match self {
            TerrainType::Land => true,
            _ => false,
        }
    }
}

} // verus!
