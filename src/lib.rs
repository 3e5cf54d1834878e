//! Sparse, unbounded storage along one or two integer axes, with
//! run-coalescing spans and seekable neighbourhood enumeration.

pub mod span;
pub mod indexed;
pub mod neighbourhood;
pub mod contig;
pub mod seekable;
pub mod enumerators;
pub mod multi_iterator;
pub mod cartesian;
pub mod vec_seekable;
pub mod playfield;
