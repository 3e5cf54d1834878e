use crate::indexed::Indexed;
use vstd::prelude::*;

verus! {

/// Number of slots along one axis of a neighbourhood.
pub const N_SIZE: usize = 3;

/// What a map holds at `k`, if anything.
pub open spec fn lookup<K, T>(m: Map<K, T>, k: K) -> Option<T> {
    if m.contains_key(k) {
        Some(m[k])
    } else {
        None
    }
}

/// Whether `k` is stored in `m` or adjoins a stored index.
pub open spec fn near<T>(m: Map<int, T>, k: int) -> bool {
    m.contains_key(k - 1) || m.contains_key(k) || m.contains_key(k + 1)
}

/// Whether a borrowed slot shows exactly the `expected` value or absence.
pub open spec fn slot_matches<T>(slot: Option<&T>, expected: Option<T>) -> bool {
    match slot {
        Some(x) => expected == Some(*x),
        None => expected is None,
    }
}

/// An index with its predecessor, itself and its successor, any of which may be missing.
///
/// Items may be values or references; enumerators hand out neighbourhoods of
/// references into the structure they walk.
#[derive(Debug, PartialEq, Eq)]
pub struct Neighbourhood<Idx, T> {
    pub i: Idx,
    pub items: [Option<T>; N_SIZE],
}

impl<Idx, T> Neighbourhood<Idx, T> {
    /// The neighbourhood of `i` with the given slots.
    pub fn new(i: Idx, items: [Option<T>; N_SIZE]) -> (r: Neighbourhood<Idx, T>)
        ensures
            r.i == i,
            r.items == items,
    {
        Neighbourhood { i, items }
    }

    /// A neighbourhood with all three slots empty.
    pub fn empty(i: Idx) -> (r: Neighbourhood<Idx, T>)
        ensures
            r.i == i,
            r.items@ == seq![None::<T>, None, None],
    {
        let r = Neighbourhood { i, items: [None, None, None] };
        assert(r.items@ =~= seq![None::<T>, None, None]);
        r
    }
}

impl<'a, T> Neighbourhood<i64, &'a T> {
    /// Whether this is the neighbourhood of `i` in the point map `m`.
    pub open spec fn describes(&self, m: Map<int, T>, i: int) -> bool {
        &&& self.i == i
        &&& slot_matches(self.items[0], lookup(m, i - 1))
        &&& slot_matches(self.items[1], lookup(m, i))
        &&& slot_matches(self.items[2], lookup(m, i + 1))
    }
}

impl<T> Indexed for Neighbourhood<i64, T> {
    open spec fn spec_index(&self) -> int {
        self.i as int
    }

    fn index(&self) -> (r: i64) {
        self.i
    }
}

} // verus!
