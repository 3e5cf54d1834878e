use vstd::prelude::*;

verus! {

/// Something that sits at an index.
pub trait Indexed {
    /// The index, as a mathematical integer.
    spec fn spec_index(&self) -> int;

    /// The index.
    fn index(&self) -> (r: i64)
        ensures
            r == self.spec_index(),
    ;
}

} // verus!
