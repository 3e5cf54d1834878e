use crate::neighbourhood::{slot_matches, Neighbourhood};
use std::cmp::Ordering;
use vstd::prelude::*;

verus! {

/// Lowest index that may be stored: two steps of headroom remain below it.
pub const MIN_INDEX: i64 = i64::MIN + 2;

/// Highest index that may be stored: two steps of headroom remain above it.
pub const MAX_INDEX: i64 = i64::MAX - 2;

/// Whether `i` leaves room for its neighbours and their neighbours.
pub open spec fn in_range(i: int) -> bool {
    MIN_INDEX <= i <= MAX_INDEX
}

/// A run of contiguous items, the first of which sits at `origin`.
#[derive(Debug, PartialEq, Eq)]
pub struct Span<T> {
    /// position of the leftmost item
    pub origin: i64,
    pub items: Vec<T>,
}

impl<T> Span<T> {
    /// First covered index.
    pub open spec fn start(&self) -> int {
        self.origin as int
    }

    /// One past the last covered index.
    pub open spec fn end(&self) -> int {
        self.origin + self.items@.len()
    }

    /// Whether `i` lies in the span.
    pub open spec fn covers(&self, i: int) -> bool {
        self.start() <= i < self.end()
    }

    /// The item stored at `i`, meaningful where `covers(i)`.
    pub open spec fn at(&self, i: int) -> T {
        self.items@[i - self.origin]
    }

    /// What the span holds at `i`, if anything.
    pub open spec fn lookup(&self, i: int) -> Option<T> {
        if self.covers(i) {
            Some(self.at(i))
        } else {
            None
        }
    }

    /// Non-empty and wholly inside the storable range.
    pub open spec fn wf(&self) -> bool {
        &&& self.items@.len() >= 1
        &&& in_range(self.start())
        &&& in_range(self.end() - 1)
    }

    /// A span of one item at `i`.
    pub fn new(i: i64, item: T) -> (r: Span<T>)
        requires
            in_range(i as int),
        ensures
            r.wf(),
            r.origin == i,
            r.items@ == seq![item],
    {
        let mut items = Vec::new();
        items.push(item);
        Span { origin: i, items }
    }

    /// One past the last covered index, computed without overflow.
    pub fn end_wide(&self) -> (r: i128)
        ensures
            r == self.end(),
    {
        self.origin as i128 + self.items.len() as i128
    }

    /// Whether `i` is covered.
    pub fn contains(&self, i: i64) -> (r: bool)
        ensures
            r == self.covers(i as int),
    {
        i >= self.origin && (i as i128) < self.end_wide()
    }

    /// Whether `i` is covered or exactly one step outside either edge.
    pub fn contains_or_adjoins(&self, i: i64) -> (r: bool)
        ensures
            r == (self.start() - 1 <= i <= self.end()),
    {
        i as i128 >= self.origin as i128 - 1 && (i as i128) <= self.end_wide()
    }

    /// The item at `i`, if covered.
    pub fn get(&self, i: i64) -> (r: Option<&T>)
        ensures
            slot_matches(r, self.lookup(i as int)),
    {
        if i >= self.origin && (i as i128) < self.end_wide() {
            let n: usize = self.items.len();
            let k = (i as i128 - self.origin as i128) as usize;
            assert(k < n);
            Some(&self.items[k])
        } else {
            None
        }
    }

    /// Whether `i` is the index just before the first item.
    pub fn adjoins_left(&self, i: i64) -> (r: bool)
        ensures
            r == (i == self.start() - 1),
    {
        i as i128 == self.origin as i128 - 1
    }

    /// Whether `i` is the index just past the last item.
    pub fn adjoins_right(&self, i: i64) -> (r: bool)
        ensures
            r == (i == self.end()),
    {
        i as i128 == self.end_wide()
    }

    /// Orders the span against `i`: `Greater` when the span lies wholly after
    /// `i`, `Equal` when it covers `i`, `Less` when it lies wholly before.
    pub fn cmp(&self, i: &i64) -> (r: Ordering)
        ensures
            r == Ordering::Greater <==> *i < self.start(),
            r == Ordering::Equal <==> self.covers(*i as int),
            r == Ordering::Less <==> *i >= self.end() && *i >= self.start(),
    {
        if *i < self.origin {
            Ordering::Greater
        } else if (*i as i128) < self.end_wide() {
            Ordering::Equal
        } else {
            Ordering::Less
        }
    }

    /// Orders the span against `i` with its adjoining indices counted in:
    /// `Greater` when `i` lies before `start() - 1`, `Equal` from there up to
    /// and including `end()`, `Less` beyond.
    pub fn cmp_with_adjacent(&self, i: &i64) -> (r: Ordering)
        ensures
            r == Ordering::Greater <==> *i < self.start() - 1,
            r == Ordering::Equal <==> self.start() - 1 <= *i <= self.end(),
            r == Ordering::Less <==> *i > self.end() && *i >= self.start() - 1,
    {
        if (*i as i128) < self.origin as i128 - 1 {
            Ordering::Greater
        } else if (*i as i128) <= self.end_wide() {
            Ordering::Equal
        } else {
            Ordering::Less
        }
    }

    /// A mutable reference to the item at `i`, if covered.
    pub fn get_mut(&mut self, i: i64) -> (r: Option<&mut T>)
        ensures
            final(self).origin == old(self).origin,
            match r {
                Some(x) => {
                    &&& old(self).covers(i as int)
                    &&& *x == old(self).at(i as int)
                    &&& final(self).items@ == old(self).items@.update(
                        i - old(self).origin,
                        *final(x),
                    )
                },
                None => !old(self).covers(i as int) && *final(self) == *old(self),
            },
    {
        if i >= self.origin && (i as i128) < self.end_wide() {
            let n: usize = self.items.len();
            let k = (i as i128 - self.origin as i128) as usize;
            assert(k < n);
            Some(&mut self.items[k])
        } else {
            None
        }
    }

    /// Replaces the item at a covered index.
    pub fn set_at(&mut self, i: i64, item: T)
        requires
            old(self).covers(i as int),
        ensures
            final(self).origin == old(self).origin,
            final(self).items@ == old(self).items@.update(i - old(self).origin, item),
    {
        let n: usize = self.items.len();
        let k = (i as i128 - self.origin as i128) as usize;
        assert(k < n);
        self.items[k] = item;
    }

    /// Prepends an item, moving the origin one step left.
    pub fn push_front(&mut self, item: T)
        requires
            in_range(old(self).start() - 1),
        ensures
            final(self).origin == old(self).origin - 1,
            final(self).items@ == seq![item] + old(self).items@,
    {
        self.items.insert(0, item);
        self.origin = self.origin - 1;
        assert(self.items@ =~= seq![item] + old(self).items@);
    }

    /// Appends an item after the last one.
    pub fn push_back(&mut self, item: T)
        ensures
            final(self).origin == old(self).origin,
            final(self).items@ == old(self).items@.push(item),
    {
        self.items.push(item);
    }

    /// Moves all items of `other` after this span's items.
    pub fn append(&mut self, other: &mut Span<T>)
        ensures
            final(self).origin == old(self).origin,
            final(self).items@ == old(self).items@ + old(other).items@,
            final(other).origin == old(other).origin,
            final(other).items@ == Seq::<T>::empty(),
    {
        self.items.append(&mut other.items);
    }

    /// The neighbourhood of a covered index `i`, drawn from this span alone.
    pub fn get_neighbourhood(&self, i: i64) -> (r: Neighbourhood<i64, &T>)
        requires
            self.covers(i as int),
        ensures
            r.i == i,
            slot_matches(r.items[0], self.lookup(i - 1)),
            slot_matches(r.items[1], self.lookup(i as int)),
            slot_matches(r.items[2], self.lookup(i + 1)),
    {
        let n: usize = self.items.len();
        let u = (i as i128 - self.origin as i128) as usize;
        assert(u < n);
        let left = if u > 0 {
            Some(&self.items[u - 1])
        } else {
            None
        };
        let item = &self.items[u];
        let right = if u + 1 < n {
            Some(&self.items[u + 1])
        } else {
            None
        };
        Neighbourhood::new(i, [left, Some(item), right])
    }
}

} // verus!
