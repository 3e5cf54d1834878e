use crate::indexed::Indexed;
use vstd::prelude::*;

verus! {

/// Whether `a` and `b` walk the same sequence of items.
pub open spec fn same_items<T: Indexed, I: SeekableIterator<T>>(a: &I, b: &I) -> bool {
    &&& forall|i: int| #[trigger] a.has_at(i) == b.has_at(i)
    &&& forall|i: int, t: T| #[trigger] a.item_is(i, t) == b.item_is(i, t)
}

/// Whether `it` has no item strictly between `i` and its cursor.
pub open spec fn nothing_before_cursor<T: Indexed, I: SeekableIterator<T>>(it: &I, i: int) -> bool {
    forall|k: int| i < k < it.cursor() ==> !it.has_at(k)
}

/// A forward iterator over items at strictly increasing indices, which can
/// also jump to any index and look at its next item without taking it.
///
/// The items form a fixed sequence: `has_at(i)` says whether one sits at
/// index `i`, and `item_is(i, t)` whether `t` is it. Every index before
/// `cursor()` has been passed.
pub trait SeekableIterator<T: Indexed>: Sized {
    /// The iterator's own consistency, kept by every method.
    spec fn inv(&self) -> bool;

    /// Whether an item sits at index `i`.
    spec fn has_at(&self, i: int) -> bool;

    /// Whether `t` is the item at index `i`.
    spec fn item_is(&self, i: int, t: T) -> bool;

    /// Every item at an index below this one has been passed.
    spec fn cursor(&self) -> int;

    /// The first item at or after the cursor, without taking it.
    fn peek(&self) -> (r: Option<T>)
        requires
            self.inv(),
        ensures
            match r {
                Some(t) => {
                    let j = t.spec_index();
                    &&& self.cursor() <= j
                    &&& self.has_at(j)
                    &&& self.item_is(j, t)
                    &&& forall|k: int| self.cursor() <= k < j ==> !self.has_at(k)
                },
                None => forall|k: int| k >= self.cursor() ==> !self.has_at(k),
            },
    ;

    /// Takes the first item at or after the cursor.
    fn next(&mut self) -> (r: Option<T>)
        requires
            old(self).inv(),
        ensures
            final(self).inv(),
            forall|k: int| #[trigger] final(self).has_at(k) == old(self).has_at(k),
            forall|k: int, t: T| #[trigger] final(self).item_is(k, t) == old(self).item_is(k, t),
            match r {
                Some(t) => {
                    let j = t.spec_index();
                    &&& old(self).cursor() <= j
                    &&& old(self).has_at(j)
                    &&& old(self).item_is(j, t)
                    &&& forall|k: int| old(self).cursor() <= k < j ==> !old(self).has_at(k)
                    &&& final(self).cursor() > j
                    &&& forall|k: int| j < k < final(self).cursor() ==> !old(self).has_at(k)
                },
                None => {
                    &&& forall|k: int| k >= old(self).cursor() ==> !old(self).has_at(k)
                    &&& final(self).cursor() == old(self).cursor()
                },
            },
    ;

    /// Moves to the first item at or after `i`, forwards or backwards, and
    /// takes it only if it sits exactly at `i`.
    fn seek(&mut self, i: i64) -> (r: Option<T>)
        requires
            old(self).inv(),
        ensures
            final(self).inv(),
            forall|k: int| #[trigger] final(self).has_at(k) == old(self).has_at(k),
            forall|k: int, t: T| #[trigger] final(self).item_is(k, t) == old(self).item_is(k, t),
            match r {
                Some(t) => {
                    &&& t.spec_index() == i
                    &&& old(self).has_at(i as int)
                    &&& old(self).item_is(i as int, t)
                    &&& final(self).cursor() > i
                    &&& forall|k: int| i < k < final(self).cursor() ==> !old(self).has_at(k)
                },
                None => {
                    &&& !old(self).has_at(i as int)
                    &&& final(self).cursor() >= i
                    &&& forall|k: int| i < k < final(self).cursor() ==> !old(self).has_at(k)
                },
            },
    ;
}

} // verus!
