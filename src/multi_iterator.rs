pub use crate::indexed::Indexed;
pub use crate::seekable::SeekableIterator;
use crate::seekable::{nothing_before_cursor, same_items};
use std::marker::PhantomData;
use vstd::prelude::*;

verus! {

/// Walks several seekable iterators in step. The driver lanes decide where
/// the next step lands: the lowest index that any of them has next. Every
/// lane is then sought to that index, drivers and others alike.
pub struct MultiIterator<I, T> {
    iterators: Vec<Option<I>>,
    drivers: Vec<bool>,
    phantom_t: PhantomData<T>,
}

impl<I: SeekableIterator<T>, T: Indexed> MultiIterator<I, T> {
    /// The lanes, an absent one standing for an iterator with no items.
    pub closed spec fn lanes(&self) -> Seq<Option<I>> {
        self.iterators@
    }

    /// Which lanes drive.
    pub closed spec fn driver_flags(&self) -> Seq<bool> {
        self.drivers@
    }

    /// One driver flag per lane, and every present lane consistent.
    pub open spec fn wf(&self) -> bool {
        &&& self.lanes().len() == self.driver_flags().len()
        &&& forall|k: int| 0 <= k < self.lanes().len() && (#[trigger] self.lanes()[k]) is Some ==> self.lanes()[k].unwrap().inv()
    }

    /// Whether driver lane `k` has an item at `j` that it has not passed yet.
    pub open spec fn pending(&self, k: int, j: int) -> bool {
        &&& 0 <= k < self.lanes().len()
        &&& self.driver_flags()[k]
        &&& self.lanes()[k] is Some
        &&& self.lanes()[k].unwrap().cursor() <= j
        &&& self.lanes()[k].unwrap().has_at(j)
    }

    /// Whether `i` is the lowest index pending in any driver lane.
    pub open spec fn next_index_is(&self, i: int) -> bool {
        &&& exists|k: int| #[trigger] self.pending(k, i)
        &&& forall|k: int, j: int| j < i ==> !#[trigger] self.pending(k, j)
    }

    /// Whether no driver lane has anything pending.
    pub open spec fn drivers_exhausted(&self) -> bool {
        forall|k: int, j: int| !#[trigger] self.pending(k, j)
    }

    /// Whether `items` is what seeking every lane of `self` to `i` yields,
    /// and `after` is where that leaves the lanes.
    pub open spec fn sought(&self, after: &Self, i: int, items: Seq<Option<T>>) -> bool {
        &&& after.lanes().len() == self.lanes().len()
        &&& after.driver_flags() == self.driver_flags()
        &&& items.len() == self.lanes().len()
        &&& forall|k: int| 0 <= k < self.lanes().len() ==> {
            let it = self.lanes()[k];
            let it2 = after.lanes()[k];
            match it {
                None => it2 is None && (#[trigger] items[k]) is None,
                Some(p) => {
                    &&& it2 is Some
                    &&& same_items(&it2.unwrap(), &p)
                    &&& it2.unwrap().cursor() >= i
                    &&& nothing_before_cursor(&it2.unwrap(), i)
                    &&& match items[k] {
                        Some(t) => t.spec_index() == i && p.has_at(i) && p.item_is(i, t)
                            && it2.unwrap().cursor() > i,
                        None => !p.has_at(i),
                    }
                },
            }
        }
    }

    /// Steps `iterators` together, `drivers[k]` saying whether lane `k` drives.
    pub fn new(iterators: Vec<Option<I>>, drivers: Vec<bool>) -> (r: MultiIterator<I, T>)
        ensures
            r.lanes() == iterators@,
            r.driver_flags() == drivers@,
    {
        MultiIterator { iterators, drivers, phantom_t: PhantomData }
    }

    /// The lowest index that a driver lane has next, if any.
    fn determine_next(&self) -> (r: Option<i64>)
        requires
            self.wf(),
        ensures
            match r {
                Some(i) => self.next_index_is(i as int),
                None => self.drivers_exhausted(),
            },
    {
        let mut min_o: Option<i64> = None;
        let mut u: usize = 0;
        while u < self.drivers.len()
            invariant
                self.wf(),
                u <= self.drivers@.len(),
                match min_o {
                    Some(m) => {
                        &&& exists|k: int| 0 <= k < u && #[trigger] self.pending(k, m as int)
                        &&& forall|k: int, j: int| 0 <= k < u && j < m ==> !#[trigger] self.pending(k, j)
                    },
                    None => forall|k: int, j: int| 0 <= k < u ==> !#[trigger] self.pending(k, j),
                },
            decreases self.drivers@.len() - u,
        {
            if self.drivers[u] {
                let next_o = match &self.iterators[u] {
                    Some(it) => {
                        proof {
                            assert(self.lanes()[u as int] == Some(*it));
                            assert(it.inv());
                        }
                        let peeked = it.peek();
                        match peeked {
                            Some(item) => {
                                let x = item.index();
                                proof {
                                    assert(self.pending(u as int, x as int));
                                    assert forall|j: int| j < x implies !self.pending(u as int, j) by {}
                                }
                                Some(x)
                            },
                            None => {
                                proof {
                                    assert forall|j: int| !self.pending(u as int, j) by {}
                                }
                                None
                            },
                        }
                    },
                    None => {
                        proof {
                            assert forall|j: int| !self.pending(u as int, j) by {}
                        }
                        None
                    },
                };
                let ghost old_min = min_o;
                match (min_o, next_o) {
                    (None, _) => {
                        min_o = next_o;
                    },
                    (Some(min), Some(next)) => {
                        if next < min {
                            min_o = next_o;
                        }
                    },
                    _ => {},
                }
                proof {
                    if let Some(m) = min_o {
                        if min_o == next_o {
                            assert(self.pending(u as int, m as int));
                        } else {
                            let k = choose|k: int| 0 <= k < u && #[trigger] self.pending(k, old_min.unwrap() as int);
                            assert(self.pending(k, m as int));
                        }
                    }
                }
            } else {
                proof {
                    assert forall|j: int| !self.pending(u as int, j) by {}
                }
            }
            u = u + 1;
        }
        min_o
    }

    /// Seeks every lane to `i` and gathers what each has exactly there.
    fn consume_next(&mut self, i: i64) -> (r: (i64, Vec<Option<T>>))
        requires
            old(self).wf(),
        ensures
            final(self).wf(),
            r.0 == i,
            old(self).sought(final(self), i as int, r.1@),
    {
        let ghost start = *self;
        let n: usize = self.iterators.len();
        let mut items: Vec<Option<T>> = Vec::with_capacity(n);
        let mut u: usize = 0;
        while u < n
            invariant
                n == self.iterators@.len(),
                start.wf(),
                u <= n,
                items@.len() == u,
                self.drivers@ == start.drivers@,
                self.iterators@.len() == start.iterators@.len(),
                forall|k: int| u <= k < n ==> self.iterators@[k] == start.iterators@[k],
                forall|k: int| 0 <= k < u ==> {
                    let it = start.lanes()[k];
                    let it2 = self.iterators@[k];
                    match it {
                        None => it2 is None && (#[trigger] items@[k]) is None,
                        Some(p) => {
                            &&& it2 is Some
                            &&& it2.unwrap().inv()
                            &&& same_items(&it2.unwrap(), &p)
                            &&& it2.unwrap().cursor() >= i
                            &&& nothing_before_cursor(&it2.unwrap(), i as int)
                            &&& match items@[k] {
                                Some(t) => t.spec_index() == i && p.has_at(i as int) && p.item_is(i as int, t)
                                    && it2.unwrap().cursor() > i,
                                None => !p.has_at(i as int),
                            }
                        },
                    }
                },
            decreases n - u,
        {
            proof {
                assert(start.lanes()[u as int] == self.iterators@[u as int]);
            }
            let item = match &mut self.iterators[u] {
                Some(p) => p.seek(i),
                None => None,
            };
            items.push(item);
            u = u + 1;
        }
        proof {
            assert forall|k: int| 0 <= k < self.lanes().len() && (#[trigger] self.lanes()[k]) is Some
                implies self.lanes()[k].unwrap().inv() by {
                assert(items@[k] == items@[k]);
                assert(start.lanes()[k] is Some);
            }
        }
        (i, items)
    }

    /// Takes the next step: the lowest index that a driver lane has next, and
    /// for every lane the item it has exactly there.
    pub fn next(&mut self) -> (r: Option<(i64, Vec<Option<T>>)>)
        requires
            old(self).wf(),
        ensures
            final(self).wf(),
            match r {
                Some((i, items)) => old(self).next_index_is(i as int) && old(self).sought(final(self), i as int, items@),
                None => old(self).drivers_exhausted() && *final(self) == *old(self),
            },
    {
        match self.determine_next() {
            Some(i) => Some(self.consume_next(i)),
            None => None,
        }
    }
}

} // verus!
