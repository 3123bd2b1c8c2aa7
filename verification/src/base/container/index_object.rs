use vstd::prelude::*;

verus! {

/// What an identifier of a node in a spatial index must offer: it is copied and compared.
pub trait PathTreeIDTrait: Copy + PartialEq {

}

impl<T> PathTreeIDTrait for T where T: Copy + PartialEq {

}

} // verus!
