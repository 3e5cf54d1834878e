use crate::indexed::Indexed;
use crate::seekable::SeekableIterator;
use vstd::prelude::*;

verus! {

/// A value together with the index it sits at.
#[derive(PartialEq, Eq, Debug)]
pub struct IndexedItem {
    pub i: i64,
    pub item: i32,
}

impl IndexedItem {
    /// The value `item` at index `i`.
    pub fn new(i: i64, item: i32) -> (r: IndexedItem)
        ensures
            r.i == i,
            r.item == item,
    {
        IndexedItem { i, item }
    }
}

impl Indexed for IndexedItem {
    open spec fn spec_index(&self) -> int {
        self.i as int
    }

    fn index(&self) -> (r: i64) {
        self.i
    }
}

/// A seekable iterator over the present entries of a vector of optional
/// values, each at its position in the vector.
pub struct VecSeekableIterator<'a> {
    vec: &'a Vec<Option<i32>>,
    /// an entry which is present, or at or past the end
    i_next: i64,
}

impl<'a> VecSeekableIterator<'a> {
    /// The entries being walked.
    pub closed spec fn entries(&self) -> Seq<Option<i32>> {
        self.vec@
    }

    /// Every present entry before this position has been passed.
    pub closed spec fn position(&self) -> int {
        self.i_next as int
    }

    /// An iterator standing at the first present entry.
    pub fn from(vec: &'a Vec<Option<i32>>) -> (r: VecSeekableIterator<'a>)
        requires
            vec@.len() <= i64::MAX,
        ensures
            r.inv(),
            r.entries() == vec@,
            forall|k: int| k < r.cursor() ==> !r.has_at(k),
    {
        let mut this = VecSeekableIterator { vec, i_next: 0 };
        let ghost start = this;
        this.skip_missing();
        proof {
            assert forall|k: int| k < this.cursor() implies !this.has_at(k) by {
                if k >= 0 {
                    assert(!start.has_at(k));
                }
            }
        }
        this
    }

    /// Moves forward over absent entries.
    fn skip_missing(&mut self)
        requires
            old(self).vec@.len() <= i64::MAX,
            old(self).i_next >= 0,
        ensures
            final(self).vec == old(self).vec,
            final(self).inv(),
            final(self).i_next >= old(self).i_next,
            forall|k: int| old(self).i_next <= k < final(self).i_next ==> !old(self).has_at(k),
    {
        let n: usize = self.vec.len();
        let ghost v = self.vec@;
        while self.i_next < n as i64 && self.vec[self.i_next as usize].is_none()
            invariant
                self.vec == old(self).vec,
                v == self.vec@,
                n == v.len(),
                n <= i64::MAX,
                self.i_next >= old(self).i_next >= 0,
                forall|k: int| old(self).i_next <= k < self.i_next ==> k >= n || v[k] is None,
            decreases n - self.i_next,
        {
            self.i_next = self.i_next + 1;
        }
    }

    /// Moves past the current entry, then over absent ones.
    fn advance(&mut self)
        requires
            old(self).inv(),
        ensures
            final(self).vec == old(self).vec,
            final(self).inv(),
            final(self).i_next >= old(self).i_next,
            old(self).i_next < old(self).vec@.len() ==> final(self).i_next > old(self).i_next,
            forall|k: int| old(self).i_next < k < final(self).i_next ==> !old(self).has_at(k),
    {
        if self.i_next < self.vec.len() as i64 {
            self.i_next = self.i_next + 1;
        }
        let ghost mid = *self;
        self.skip_missing();
        proof {
            assert forall|k: int| old(self).i_next < k < self.i_next implies !old(self).has_at(k) by {
                assert(!mid.has_at(k));
            }
        }
    }

    /// The current entry, if any.
    fn get_current(&self) -> (r: Option<IndexedItem>)
        requires
            self.inv(),
        ensures
            match r {
                Some(t) => t.i == self.i_next && self.has_at(t.i as int) && self.item_is(t.i as int, t),
                None => self.i_next >= self.vec@.len(),
            },
    {
        if self.i_next < self.vec.len() as i64 {
            match self.vec[self.i_next as usize] {
                Some(item) => Some(IndexedItem::new(self.i_next, item)),
                None => None,
            }
        } else {
            None
        }
    }
}

impl<'a> SeekableIterator<IndexedItem> for VecSeekableIterator<'a> {
    open spec fn inv(&self) -> bool {
        let n = self.entries().len();
        &&& n <= i64::MAX
        &&& self.cursor() >= 0
        &&& self.cursor() < n ==> self.entries()[self.cursor()] is Some
    }

    open spec fn has_at(&self, i: int) -> bool {
        0 <= i < self.entries().len() && self.entries()[i] is Some
    }

    open spec fn item_is(&self, i: int, t: IndexedItem) -> bool {
        t.i == i && self.entries()[i] == Some(t.item)
    }

    open spec fn cursor(&self) -> int {
        self.position()
    }

    fn peek(&self) -> (r: Option<IndexedItem>) {
        self.get_current()
    }

    fn next(&mut self) -> (r: Option<IndexedItem>) {
        if self.i_next < self.vec.len() as i64 {
            let item = self.get_current();
            self.advance();
            item
        } else {
            None
        }
    }

    fn seek(&mut self, i: i64) -> (r: Option<IndexedItem>) {
        if i < 0 {
            self.i_next = 0;
            let ghost mid = *self;
            self.skip_missing();
            proof {
                assert forall|k: int| i < k < self.i_next implies !old(self).has_at(k) by {
                    if k >= 0 {
                        assert(!mid.has_at(k));
                    }
                }
            }
            return None;
        }
        self.i_next = i;
        let ghost mid = *self;
        self.skip_missing();
        proof {
            assert forall|k: int| i <= k < self.i_next implies !old(self).has_at(k) by {
                assert(!mid.has_at(k));
            }
        }
        if self.i_next == i {
            let item = self.get_current();
            let ghost at = *self;
            self.advance();
            proof {
                assert forall|k: int| i < k < self.i_next implies !old(self).has_at(k) by {
                    assert(!at.has_at(k));
                }
            }
            item
        } else {
            None
        }
    }
}

} // verus!
