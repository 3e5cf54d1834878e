use crate::indexed::Indexed;
use crate::contig::{
    lemma_gap, lemma_near, lemma_past_end, lemma_spans_map_at, spans_cover, spans_map, spans_near, Contig,
};
use crate::neighbourhood::{lookup, near, slot_matches, Neighbourhood};
use crate::seekable::SeekableIterator;
use vstd::prelude::*;

verus! {

/// Whether enumerator `e` walks the neighbourhoods of the points `m`.
pub open spec fn walks<'a, T>(e: ContigNeighbourhoodEnumerator<'a, T>, m: Map<int, T>) -> bool {
    &&& forall|k: int| #[trigger] e.has_at(k) == near(m, k)
    &&& forall|k: int, t: Neighbourhood<i64, &'a T>| #[trigger] e.item_is(k, t) == t.describes(m, k)
}

/// An index has at most one neighbourhood in a point map.
pub proof fn lemma_describes_unique<'a, T>(m: Map<int, T>, j: int, t1: Neighbourhood<i64, &'a T>, t2: Neighbourhood<i64, &'a T>)
    requires
        t1.describes(m, j),
        t2.describes(m, j),
    ensures
        t1 == t2,
{
    assert(t1.items@ =~= t2.items@);
    assert(t1.items == t2.items);
}

/// Seeking never disagrees with a plain walk: two enumerators over the same
/// points, however each has been moved by `next` and `seek`, have items at
/// the same indices, and the same item at each.
pub proof fn lemma_seek_consistent<'a, T>(
    m: Map<int, T>,
    e1: ContigNeighbourhoodEnumerator<'a, T>,
    e2: ContigNeighbourhoodEnumerator<'a, T>,
    j: int,
    t1: Neighbourhood<i64, &'a T>,
    t2: Neighbourhood<i64, &'a T>,
)
    requires
        walks(e1, m),
        walks(e2, m),
    ensures
        e1.has_at(j) == e2.has_at(j),
        e1.item_is(j, t1) && e2.item_is(j, t2) ==> t1 == t2,
{
    if e1.item_is(j, t1) && e2.item_is(j, t2) {
        lemma_describes_unique(m, j, t1, t2);
    }
}

/// Walks the stored indices of a contig and every index that adjoins one,
/// giving the neighbourhood of each, in ascending order.
pub struct ContigNeighbourhoodEnumerator<'a, T> {
    c: &'a Contig<T>,
    u_next: usize,
    i_next: i64,
}

impl<'a, T> ContigNeighbourhoodEnumerator<'a, T> {
    /// The points of the contig being walked.
    pub closed spec fn points(&self) -> Map<int, T> {
        self.c@
    }

    /// The index the enumerator stands at.
    pub closed spec fn position(&self) -> int {
        self.i_next as int
    }

    /// Stands at an index that is stored or adjoins one, in the span it
    /// belongs to, or past the end.
    pub closed spec fn valid(&self) -> bool {
        &&& self.c.wf()
        &&& self.c.cursor_ok(self.u_next as int, self.i_next as int)
    }

    /// An enumerator that starts just left of the first stored index.
    pub fn new(c: &'a Contig<T>) -> (r: ContigNeighbourhoodEnumerator<'a, T>)
        requires
            c.wf(),
        ensures
            r.valid(),
            r.points() == c@,
            forall|k: int| k < r.position() ==> !near(c@, k),
    {
        let r = ContigNeighbourhoodEnumerator { c, u_next: 0, i_next: c.spans[0].origin - 1 };
        proof {
            lemma_near(c.spans@);
            assert forall|k: int| k < r.position() implies !spans_near(c.spans@, k) by {
                if spans_near(c.spans@, k) {
                    let w = choose|w: int| 0 <= w < c.spans@.len() && (#[trigger] c.spans@[w]).start() - 1 <= k <= c.spans@[w].end();
                    if w > 0 {
                        assert(c.spans@[0].end() < c.spans@[w].start());
                    }
                }
            }
            if 1 < c.spans@.len() {
                assert(c.spans@[0].end() < c.spans@[1].start());
            }
        }
        r
    }

    /// The neighbourhood at the current position, if not past the end.
    fn get_current(&self) -> (r: Option<Neighbourhood<i64, &'a T>>)
        requires
            self.valid(),
        ensures
            match r {
                Some(n) => self.u_next < self.c.spans@.len() && n.describes(self.c@, self.i_next as int),
                None => self.u_next == self.c.spans@.len(),
            },
    {
        if self.u_next < self.c.spans.len() {
            let c = self.c;
            let u = self.u_next;
            let i = self.i_next;
            let span = &c.spans[u];
            let ghost s = c.spans@;
            proof {
                assert(s[u as int].wf());
                if u > 0 {
                    assert(s[u - 1].end() < s[u as int].start());
                }
                if u + 1 < s.len() {
                    assert(s[u as int].end() < s[u + 1].start());
                }
            }
            let nbh = if span.contains(i) {
                proof {
                    lemma_spans_map_at(s, u as int, i as int);
                    if span.covers(i - 1) {
                        lemma_spans_map_at(s, u as int, i - 1);
                    } else {
                        lemma_gap(s, u as int, i - 1);
                    }
                    if span.covers(i + 1) {
                        lemma_spans_map_at(s, u as int, i + 1);
                    } else {
                        lemma_gap(s, u + 1, i + 1);
                    }
                }
                span.get_neighbourhood(i)
            } else if span.adjoins_left(i) {
                proof {
                    if u > 0 && s[u - 1].covers(i - 1) {
                        lemma_spans_map_at(s, u - 1, i - 1);
                    } else {
                        lemma_gap(s, u as int, i - 1);
                    }
                    lemma_gap(s, u as int, i as int);
                    lemma_spans_map_at(s, u as int, i + 1);
                }
                let item_left = c.get_in_left(u, i - 1);
                Neighbourhood::new(i, [item_left, None, span.get(span.origin)])
            } else {
                proof {
                    lemma_spans_map_at(s, u as int, i - 1);
                    lemma_gap(s, u + 1, i as int);
                    lemma_gap(s, u + 1, i + 1);
                }
                Neighbourhood::new(i, [span.get(i - 1), None, None])
            };
            Some(nbh)
        } else {
            None
        }
    }

    /// Moves to the next index that is stored or adjoins a stored index.
    fn advance(&mut self)
        requires
            old(self).valid(),
            old(self).u_next < old(self).c.spans@.len(),
        ensures
            final(self).valid(),
            final(self).c == old(self).c,
            final(self).i_next > old(self).i_next,
            forall|k: int| old(self).i_next < k < final(self).i_next ==> !spans_near(old(self).c.spans@, k),
    {
        let c = self.c;
        let ghost s = c.spans@;
        let n: usize = c.spans.len();
        let ghost u0 = self.u_next as int;
        let ghost i0 = self.i_next as int;
        proof {
            assert(s[u0].wf());
        }
        self.i_next = self.i_next + 1;
        if !c.spans[self.u_next].contains_or_adjoins(self.i_next) {
            self.u_next = self.u_next + 1;
            if self.u_next < c.spans.len() {
                proof {
                    assert(s[u0].end() < s[u0 + 1].start());
                    if u0 + 2 < s.len() {
                        assert(s[u0 + 1].end() < s[u0 + 2].start());
                    }
                    assert forall|k: int| i0 < k < s[u0 + 1].start() - 1 implies !spans_near(s, k) by {
                        if spans_near(s, k) {
                            let w = choose|w: int| 0 <= w < s.len() && (#[trigger] s[w]).start() - 1 <= k <= s[w].end();
                            if w < u0 {
                                assert(s[w].end() < s[u0].start());
                            } else if w > u0 + 1 {
                                assert(s[u0 + 1].end() < s[w].start());
                            }
                        }
                    }
                }
                self.i_next = c.spans[self.u_next].origin - 1;
            } else {
                proof {
                    assert forall|k: int| i0 < k implies !spans_near(s, k) by {
                        if spans_near(s, k) {
                            let w = choose|w: int| 0 <= w < s.len() && (#[trigger] s[w]).start() - 1 <= k <= s[w].end();
                            if w < u0 {
                                assert(s[w].end() < s[u0].start());
                            }
                        }
                    }
                }
            }
        } else {
            proof {
                if u0 + 1 < s.len() {
                    assert(s[u0].end() < s[u0 + 1].start());
                    if u0 + 2 < s.len() {
                        assert(s[u0 + 1].end() < s[u0 + 2].start());
                    }
                }
            }
        }
        if self.u_next < c.spans.len() {
            self.u_next = c.normalised(self.u_next, self.i_next);
        }
    }
}

impl<'a, T> SeekableIterator<Neighbourhood<i64, &'a T>> for ContigNeighbourhoodEnumerator<'a, T> {
    open spec fn inv(&self) -> bool {
        self.valid()
    }

    open spec fn has_at(&self, i: int) -> bool {
        near(self.points(), i)
    }

    open spec fn item_is(&self, i: int, t: Neighbourhood<i64, &'a T>) -> bool {
        t.describes(self.points(), i)
    }

    open spec fn cursor(&self) -> int {
        self.position()
    }

    fn peek(&self) -> (r: Option<Neighbourhood<i64, &'a T>>) {
        let r = self.get_current();
        proof {
            self.lemma_current();
        }
        r
    }

    fn next(&mut self) -> (r: Option<Neighbourhood<i64, &'a T>>) {
        let r = self.get_current();
        proof {
            self.lemma_current();
            lemma_near(self.c.spans@);
        }
        if self.u_next < self.c.spans.len() {
            self.advance();
        }
        r
    }

    fn seek(&mut self, i_from: i64) -> (r: Option<Neighbourhood<i64, &'a T>>) {
        let c = self.c;
        let ghost s = c.spans@;
        proof {
            lemma_near(s);
        }
        let n: usize = c.spans.len();
        if self.u_next < n {
            let u = self.u_next;
            let span = &c.spans[u];
            let span_left_o = c.get_left_of(u);
            let right_adjoins = u + 1 < n && c.spans[u + 1].adjoins_left(i_from);
            proof {
                assert(s[u as int].wf());
                if u > 0 {
                    assert(s[u - 1].end() < s[u as int].start());
                }
                if u + 1 < n {
                    assert(s[u as int].end() < s[u + 1].start());
                }
            }
            if span.contains(i_from) || span.adjoins_left(i_from) || (span.adjoins_right(i_from)
                && !right_adjoins) {
                self.i_next = i_from;
            } else if u + 1 < n && (c.spans[u + 1].contains(i_from) || right_adjoins) {
                proof {
                    if u + 2 < n {
                        assert(s[u + 1].end() < s[u + 2].start());
                    }
                }
                self.u_next = u + 1;
                self.i_next = i_from;
            } else if match span_left_o {
                Some(span_left) => span_left.contains(i_from) || span_left.adjoins_left(i_from)
                    || span_left.adjoins_right(i_from),
                None => false,
            } {
                proof {
                    assert(s[u - 1].wf());
                }
                self.u_next = u - 1;
                self.i_next = i_from;
            } else {
                let (u2, i2) = c.find_with_adjacent(i_from);
                self.u_next = u2;
                self.i_next = i2;
            }
        } else {
            let (u2, i2) = c.find_with_adjacent(i_from);
            self.u_next = u2;
            self.i_next = i2;
        }
        proof {
            self.lemma_current();
        }
        if self.i_next == i_from {
            let r = self.get_current();
            if self.u_next < n {
                self.advance();
            }
            r
        } else {
            None
        }
    }
}

impl<'a, T> ContigNeighbourhoodEnumerator<'a, T> {
    /// What `get_current` yields, in the terms of the iterator's contract.
    proof fn lemma_current(&self)
        requires
            self.valid(),
        ensures
            self.u_next < self.c.spans@.len() ==> spans_near(self.c.spans@, self.i_next as int)
                && near(self.c@, self.i_next as int),
            self.u_next == self.c.spans@.len() ==> forall|k: int| k >= self.i_next ==> !near(self.c@, k),
    {
        let s = self.c.spans@;
        lemma_near(s);
        if self.u_next < s.len() {
            assert(s[self.u_next as int].start() - 1 <= self.i_next <= s[self.u_next as int].end());
        } else {
            assert forall|k: int| k >= self.i_next implies !near(self.c@, k) by {
                lemma_past_end(s, k);
            }
        }
    }
}

/// Walks the stored indices of a contig in ascending order, with their items.
pub struct ContigEnumerator<'a, T> {
    c: &'a Contig<T>,
    u_next: usize,
    i_next: i64,
}

impl<'a, T> ContigEnumerator<'a, T> {
    /// The points of the contig being walked.
    pub closed spec fn points(&self) -> Map<int, T> {
        self.c@
    }

    /// Every stored index below this one has been passed.
    pub closed spec fn position(&self) -> int {
        self.i_next as int
    }

    /// Spans not yet finished; with `items_left`, shrinks at every step.
    pub closed spec fn spans_left(&self) -> nat {
        (self.c.spans@.len() - self.u_next) as nat
    }

    /// Items of the current span not yet taken.
    pub closed spec fn items_left(&self) -> nat {
        if self.u_next < self.c.spans@.len() {
            (self.c.spans@[self.u_next as int].end() - self.i_next) as nat
        } else {
            0
        }
    }

    /// Stands at a stored index of its span, or past the end.
    pub closed spec fn valid(&self) -> bool {
        let s = self.c.spans@;
        &&& self.c.wf()
        &&& self.u_next <= s.len()
        &&& self.u_next < s.len() ==> s[self.u_next as int].covers(self.i_next as int)
        &&& self.u_next == s.len() ==> self.i_next >= s[s.len() - 1].end()
    }

    fn new(c: &'a Contig<T>, u_next: usize, i_next: i64) -> (r: ContigEnumerator<'a, T>)
        ensures
            r.c == c,
            r.u_next == u_next,
            r.i_next == i_next,
    {
        ContigEnumerator { c, u_next, i_next }
    }

    /// Moves to the next stored index.
    fn advance(&mut self)
        requires
            old(self).valid(),
            old(self).u_next < old(self).c.spans@.len(),
        ensures
            final(self).valid(),
            final(self).c == old(self).c,
            final(self).i_next > old(self).i_next,
            forall|k: int| old(self).i_next < k < final(self).i_next ==> !spans_cover(old(self).c.spans@, k),
            final(self).u_next > old(self).u_next || (final(self).u_next == old(self).u_next
                && final(self).i_next == old(self).i_next + 1),
    {
        let c = self.c;
        let ghost s = c.spans@;
        let n: usize = c.spans.len();
        let ghost u0 = self.u_next as int;
        let ghost i0 = self.i_next as int;
        proof {
            assert(s[u0].wf());
        }
        self.i_next = self.i_next + 1;
        if !c.spans[self.u_next].contains(self.i_next) {
            self.u_next = self.u_next + 1;
            if self.u_next < n {
                proof {
                    assert(s[u0].end() < s[u0 + 1].start());
                    assert(s[u0 + 1].wf());
                    assert forall|k: int| i0 < k < s[u0 + 1].start() implies !spans_cover(s, k) by {
                        if spans_cover(s, k) {
                            let w = choose|w: int| 0 <= w < s.len() && (#[trigger] s[w]).covers(k);
                            if w < u0 {
                                assert(s[w].end() < s[u0].start());
                            } else if w > u0 + 1 {
                                assert(s[u0 + 1].end() < s[w].start());
                            }
                        }
                    }
                }
                self.i_next = c.spans[self.u_next].origin;
            } else {
                proof {
                    assert forall|k: int| i0 < k implies !spans_cover(s, k) by {
                        if spans_cover(s, k) {
                            let w = choose|w: int| 0 <= w < s.len() && (#[trigger] s[w]).covers(k);
                            if w < u0 {
                                assert(s[w].end() < s[u0].start());
                            }
                        }
                    }
                }
            }
        }
    }

    /// Takes the next stored index and its item.
    pub fn next(&mut self) -> (r: Option<(i64, &'a T)>)
        requires
            old(self).valid(),
        ensures
            final(self).valid(),
            final(self).points() == old(self).points(),
            match r {
                Some((j, x)) => {
                    &&& j == old(self).position()
                    &&& old(self).points().contains_key(j as int)
                    &&& *x == old(self).points()[j as int]
                    &&& final(self).position() > j
                    &&& forall|k: int| j < k < final(self).position() ==> !old(self).points().contains_key(k)
                    &&& final(self).spans_left() < old(self).spans_left() || (final(self).spans_left()
                        == old(self).spans_left() && final(self).items_left() < old(self).items_left())
                },
                None => {
                    &&& forall|k: int| k >= old(self).position() ==> !old(self).points().contains_key(k)
                    &&& final(self).position() == old(self).position()
                },
            },
    {
        let c = self.c;
        if self.u_next < c.spans.len() {
            let i = self.i_next;
            proof {
                lemma_spans_map_at(c.spans@, self.u_next as int, i as int);
            }
            let item = c.spans[self.u_next].get(i).unwrap();
            self.advance();
            Some((i, item))
        } else {
            proof {
                assert forall|k: int| k >= self.i_next implies !self.c@.contains_key(k) by {
                    lemma_gap(c.spans@, c.spans@.len() as int, k);
                }
            }
            None
        }
    }
}

impl<T> Contig<T> {
    /// Walks the stored indices in ascending order.
    pub fn enumerator(&self) -> (r: ContigEnumerator<'_, T>)
        requires
            self.wf(),
        ensures
            r.valid(),
            r.points() == self@,
            forall|k: int| k < r.position() ==> !self@.contains_key(k),
    {
        let next_i = self.spans[0].origin;
        proof {
            assert forall|k: int| k < next_i implies !self@.contains_key(k) by {
                lemma_gap(self.spans@, 0, k);
            }
        }
        ContigEnumerator::new(self, 0, next_i)
    }

    /// Walks every index that is stored or adjoins a stored index, in
    /// ascending order, with its neighbourhood.
    pub fn neighbourhood_enumerator(&self) -> (r: ContigNeighbourhoodEnumerator<'_, T>)
        requires
            self.wf(),
        ensures
            r.inv(),
            r.points() == self@,
            walks(r, self@),
            forall|k: int| k < r.cursor() ==> !near(self@, k),
    {
        ContigNeighbourhoodEnumerator::new(self)
    }

    /// Like `neighbourhood_enumerator`, but standing at the first index at or
    /// after `i` that is stored or adjoins a stored index.
    pub fn neighbourhood_enumerator_from(&self, i: i64) -> (r: ContigNeighbourhoodEnumerator<'_, T>)
        requires
            self.wf(),
        ensures
            r.inv(),
            r.points() == self@,
            walks(r, self@),
            r.cursor() >= i,
            forall|k: int| i <= k < r.cursor() ==> !near(self@, k),
    {
        let (u_next, i_next) = self.find_with_adjacent(i);
        proof {
            lemma_near(self.spans@);
        }
        ContigNeighbourhoodEnumerator { c: self, u_next, i_next }
    }
}

} // verus!
