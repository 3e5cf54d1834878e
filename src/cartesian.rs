use crate::contig::Contig;
use crate::enumerators::{walks, ContigEnumerator, ContigNeighbourhoodEnumerator};
use crate::indexed::Indexed;
use crate::multi_iterator::MultiIterator;
use crate::neighbourhood::{lookup, near, slot_matches, Neighbourhood, N_SIZE};
use crate::seekable::SeekableIterator;
use crate::span::{in_range, MIN_INDEX};
use vstd::prelude::*;

verus! {

/// A point on the plane.
#[derive(Default, Copy, Clone, PartialEq, Eq, Debug)]
pub struct Coordinate<T> {
    pub x: T,
    pub y: T,
}

/// The points of a plane held as rows, keyed by `(x, y)`.
pub open spec fn plane_of<T>(rows: Map<int, Contig<T>>) -> Map<(int, int), T> {
    Map::new(
        |p: (int, int)| rows.contains_key(p.1) && rows[p.1]@.contains_key(p.0),
        |p: (int, int)| rows[p.1]@[p.0],
    )
}

/// Every row of `rows` is well formed.
pub open spec fn rows_wf<T>(rows: Map<int, Contig<T>>) -> bool {
    forall|y: int| #[trigger] rows.contains_key(y) ==> rows[y].wf()
}

/// The points that writing `pts` in order leaves on a plane.
pub open spec fn plane_points<T>(pts: Seq<((i64, i64), T)>) -> Map<(int, int), T>
    decreases pts.len(),
{
    if pts.len() == 0 {
        Map::empty()
    } else {
        plane_points(pts.drop_last()).insert((pts.last().0.0 as int, pts.last().0.1 as int), pts.last().1)
    }
}

/// Where `pts[j]` is written.
pub open spec fn key_of<T>(pts: Seq<((i64, i64), T)>, j: int) -> (int, int) {
    (pts[j].0.0 as int, pts[j].0.1 as int)
}

/// What `new` and `set` leave is what writing their points in order leaves:
/// one point gives the one-point plane, and each further write adds its
/// point on top. So a plane made by `new` from `pts[0]` and then `set` for
/// each later point holds `plane_points(pts)`.
pub proof fn lemma_written_plane<T>(pts: Seq<((i64, i64), T)>, x: i64, y: i64, item: T)
    ensures
        plane_points(seq![((x, y), item)]) == map![(x as int, y as int) => item],
        plane_points(pts.push(((x, y), item))) == plane_points(pts).insert((x as int, y as int), item),
{
    assert(seq![((x, y), item)].drop_last() =~= Seq::<((i64, i64), T)>::empty());
    assert(plane_points(Seq::<((i64, i64), T)>::empty()) =~= Map::<(int, int), T>::empty());
    assert(plane_points(seq![((x, y), item)]) =~= map![(x as int, y as int) => item]);
    assert(pts.push(((x, y), item)).drop_last() =~= pts);
}

/// Reading back what was written: on a plane that holds what writing the
/// distinct points `pts` leaves, every written point reads back as written
/// and every other point reads back as absent.
pub proof fn lemma_round_trip<T>(pts: Seq<((i64, i64), T)>, cc: CartesianContig<T>)
    requires
        forall|j1: int, j2: int| 0 <= j1 < j2 < pts.len() ==> key_of(pts, j1) != key_of(pts, j2),
        cc@ == plane_points(pts),
    ensures
        forall|j: int| 0 <= j < pts.len() ==> lookup(cc@, #[trigger] key_of(pts, j)) == Some(pts[j].1),
        forall|q: (int, int)| (forall|j: int| 0 <= j < pts.len() ==> #[trigger] key_of(pts, j) != q) ==> lookup(cc@, q) == None::<T>,
    decreases pts.len(),
{
    lemma_plane_points(pts);
}

/// Each written point of distinct `pts` stays as written, and nothing else
/// is held.
proof fn lemma_plane_points<T>(pts: Seq<((i64, i64), T)>)
    requires
        forall|j1: int, j2: int| 0 <= j1 < j2 < pts.len() ==> key_of(pts, j1) != key_of(pts, j2),
    ensures
        forall|j: int| 0 <= j < pts.len() ==> lookup(plane_points(pts), #[trigger] key_of(pts, j)) == Some(pts[j].1),
        forall|q: (int, int)| (forall|j: int| 0 <= j < pts.len() ==> #[trigger] key_of(pts, j) != q) ==> lookup(plane_points(pts), q) == None::<T>,
    decreases pts.len(),
{
    if pts.len() > 0 {
        let q = pts.drop_last();
        let n = pts.len() - 1;
        assert forall|j1: int, j2: int| 0 <= j1 < j2 < q.len() implies key_of(q, j1) != key_of(q, j2) by {
            assert(key_of(q, j1) == key_of(pts, j1) && key_of(q, j2) == key_of(pts, j2));
        }
        lemma_plane_points(q);
        assert forall|j: int| 0 <= j < pts.len() implies lookup(plane_points(pts), #[trigger] key_of(pts, j)) == Some(pts[j].1) by {
            if j < n {
                assert(key_of(q, j) == key_of(pts, j));
                assert(key_of(pts, j) != key_of(pts, n));
            }
        }
        assert forall|p: (int, int)| (forall|j: int| 0 <= j < pts.len() ==> #[trigger] key_of(pts, j) != p) implies lookup(plane_points(pts), p) == None::<T> by {
            assert(key_of(pts, n) != p);
            assert forall|j: int| 0 <= j < q.len() implies #[trigger] key_of(q, j) != p by {
                assert(key_of(q, j) == key_of(pts, j));
            }
            assert(lookup(plane_points(q), p) == None::<T>);
            assert(pts.last() == pts[n]);
        }
    }
}

/// A sparse plane: a contig of rows indexed by `y`, each a contig indexed by `x`.
#[derive(Debug)]
pub struct CartesianContig<T>(pub Contig<Contig<T>>);

impl<T> View for CartesianContig<T> {
    type V = Map<(int, int), T>;

    /// The points, keyed by `(x, y)`.
    open spec fn view(&self) -> Map<(int, int), T> {
        plane_of(self.0@)
    }
}

impl<T> CartesianContig<T> {
    /// The rows and every row are well formed.
    pub open spec fn wf(&self) -> bool {
        &&& self.0.wf()
        &&& rows_wf(self.0@)
    }

    /// A plane holding one item.
    pub fn new(x: i64, y: i64, item: T) -> (r: CartesianContig<T>)
        requires
            in_range(x as int),
            in_range(y as int),
        ensures
            r.wf(),
            r@ == map![(x as int, y as int) => item],
    {
        let row = Contig::new(x, item);
        let r = CartesianContig(Contig::new(y, row));
        assert(r@ =~= map![(x as int, y as int) => item]);
        r
    }

    /// The item at `(x, y)`, if stored.
    pub fn get(&self, x: i64, y: i64) -> (r: Option<&T>)
        requires
            self.wf(),
        ensures
            slot_matches(r, lookup(self@, (x as int, y as int))),
    {
        match self.0.get(y) {
            Some(row) => row.get(x),
            None => None,
        }
    }

    /// Stores `item` at `(x, y)`, making the row if it is new.
    pub fn set(&mut self, x: i64, y: i64, item: T)
        requires
            old(self).wf(),
            in_range(x as int),
            in_range(y as int),
        ensures
            final(self).wf(),
            final(self)@ == old(self)@.insert((x as int, y as int), item),
    {
        let ghost rows0 = self.0@;
        match self.0.get_mut(y) {
            Some(row) => {
                row.set(x, item);
            },
            None => {
                self.0.set(y, Contig::new(x, item));
            },
        }
        proof {
            assert forall|yy: int| #[trigger] self.0@.contains_key(yy) implies self.0@[yy].wf() by {
                if yy != y {
                    assert(rows0.contains_key(yy));
                }
            }
            assert(self@ =~= old(self)@.insert((x as int, y as int), item));
        }
    }

    /// The lowest `x` and the lowest `y` over all points; the two need not
    /// belong to one point.
    pub fn origin(&self) -> (r: Coordinate<i64>)
        requires
            self.wf(),
        ensures
            exists|p: (int, int)| #[trigger] self@.contains_key(p) && p.0 == r.x,
            exists|p: (int, int)| #[trigger] self@.contains_key(p) && p.1 == r.y,
            forall|p: (int, int)| #[trigger] self@.contains_key(p) ==> r.x <= p.0 && r.y <= p.1,
    {
        let y = self.0.origin();
        proof {
            let row = self.0@[y as int];
            crate::contig::lemma_spans_map_at(row.spans@, 0, row.spans@[0].start());
            assert(self@.contains_key((row.spans@[0].start(), y as int)));
        }
        let mut rows = self.0.enumerator();
        let first = rows.next();
        let (y0, row0) = first.unwrap();
        let mut x = row0.origin();
        proof {
            assert(self@.contains_key((x as int, y0 as int)));
        }
        loop
            invariant
                self.wf(),
                rows.valid(),
                rows.points() == self.0@,
                self@.contains_key((x as int, y0 as int)) || exists|p: (int, int)| #[trigger] self@.contains_key(p) && p.0 == x,
                forall|p: (int, int)| #[trigger] self@.contains_key(p) && p.1 < rows.position() ==> x <= p.0,
            ensures
                self@.contains_key((x as int, y0 as int)) || exists|p: (int, int)| #[trigger] self@.contains_key(p) && p.0 == x,
                forall|p: (int, int)| #[trigger] self@.contains_key(p) ==> x <= p.0,
            decreases rows.spans_left(), rows.items_left(),
        {
            match rows.next() {
                Some((yy, row)) => {
                    let xo = row.origin();
                    proof {
                        assert(self@.contains_key((xo as int, yy as int)));
                        assert forall|p: (int, int)| #[trigger] self@.contains_key(p) && p.1 < rows.position()
                            implies p.0 >= (if xo < x { xo } else { x }) by {
                            if p.1 == yy {
                                assert(row@.contains_key(p.0));
                            }
                        }
                    }
                    if xo < x {
                        x = xo;
                    }
                },
                None => {
                    proof {
                        assert forall|p: (int, int)| #[trigger] self@.contains_key(p) implies x <= p.0 by {
                            assert(self.0@.contains_key(p.1));
                            assert(p.1 < rows.position());
                        }
                    }
                    break;
                },
            }
        }
        proof {
            assert forall|p: (int, int)| #[trigger] self@.contains_key(p) implies y <= p.1 by {
                assert(self.0@.contains_key(p.1));
            }
        }
        Coordinate { x, y }
    }

    /// Walks the rows in ascending order of `y`.
    pub fn rows_enumerator(&self) -> (r: ContigEnumerator<'_, Contig<T>>)
        requires
            self.wf(),
        ensures
            r.valid(),
            r.points() == self.0@,
            forall|k: int| k < r.position() ==> !self.0@.contains_key(k),
    {
        self.0.enumerator()
    }

    /// Walks every cell that is stored or touches a stored cell, row by row
    /// and column by column, with its 3×3 neighbourhood.
    pub fn neighbourhood_enumerator(&self) -> (r: CartesianContigNeighbourhoodEnumerator<'_, T>)
        requires
            self.wf(),
        ensures
            r.valid(),
            r.rows() == self.0@,
            r.plane() == self@,
            forall|y: int, x: int| wanted(self.0@, y, x) ==> !precedes((y, x), r.cursor()),
    {
        CartesianContigNeighbourhoodEnumerator::new(self)
    }
}

/// A cell with the 3×3 block around it; the first index of `items` is the
/// row offset (below, at, above), the second the column offset (left, at,
/// right).
#[derive(Debug, PartialEq, Eq)]
pub struct CartesianNeighbourhood<Idx, T> {
    pub i_row: Idx,
    pub i_col: Idx,
    pub items: [[Option<T>; N_SIZE]; N_SIZE],
}

impl<Idx, T> CartesianNeighbourhood<Idx, T> {
    /// Stacks three row neighbourhoods, an absent one giving an empty row.
    pub fn new(i_row: Idx, i_col: Idx, nbhs: Vec<Option<Neighbourhood<Idx, T>>>) -> (r: CartesianNeighbourhood<Idx, T>)
        requires
            nbhs@.len() == 3,
        ensures
            r.i_row == i_row,
            r.i_col == i_col,
            forall|a: int| 0 <= a < 3 ==> match #[trigger] nbhs@[a] {
                Some(n) => r.items[a] == n.items,
                None => r.items[a]@ == seq![None::<T>, None, None],
            },
    {
        let mut nbhs = nbhs;
        let ghost all = nbhs@;
        let above = Self::row_items(nbhs.pop().unwrap());
        let at = Self::row_items(nbhs.pop().unwrap());
        let below = Self::row_items(nbhs.pop().unwrap());
        let r = CartesianNeighbourhood { i_row, i_col, items: [below, at, above] };
        proof {
            assert(r.items[0] == below && r.items[1] == at && r.items[2] == above);
        }
        r
    }

    /// The items of a row neighbourhood, or an empty row.
    fn row_items(nbh: Option<Neighbourhood<Idx, T>>) -> (r: [Option<T>; N_SIZE])
        ensures
            match nbh {
                Some(n) => r == n.items,
                None => r@ == seq![None::<T>, None, None],
            },
    {
        match nbh {
            Some(n) => n.items,
            None => {
                let r = [None, None, None];
                assert(r@ =~= seq![None::<T>, None, None]);
                r
            },
        }
    }
}

impl<'a, T> CartesianNeighbourhood<i64, &'a T> {
    /// Whether this is the 3×3 block of the plane `m` around its own cell.
    pub open spec fn describes(&self, m: Map<(int, int), T>) -> bool {
        forall|a: int, b: int|
            0 <= a < 3 && 0 <= b < 3 ==> slot_matches(
                #[trigger] self.items[a][b],
                lookup(m, (self.i_col + b - 1, self.i_row + a - 1)),
            )
    }
}

/// Steps along the columns of three neighbouring rows.
pub type CartesianContigNeighborhoodMultiIterator<'a, T> = MultiIterator<
    ContigNeighbourhoodEnumerator<'a, T>,
    Neighbourhood<i64, &'a T>,
>;

/// A column below every column that any row can hold or touch.
pub open spec fn before_all_columns() -> int {
    MIN_INDEX - 2
}

/// Whether cell `(x, y)` is visited: row `y` is stored or touches a stored
/// row, and column `x` is stored or touches a stored cell in row `y`, or,
/// where row `y` holds nothing, in a stored row next to it.
pub open spec fn wanted<T>(rows: Map<int, Contig<T>>, y: int, x: int) -> bool {
    &&& near(rows, y)
    &&& if rows.contains_key(y) {
        near(rows[y]@, x)
    } else {
        (rows.contains_key(y - 1) && near(rows[y - 1]@, x)) || (rows.contains_key(y + 1) && near(rows[y + 1]@, x))
    }
}

/// Whether cell `a` (row first, then column) comes before cell `b`.
pub open spec fn precedes(a: (int, int), b: (int, int)) -> bool {
    a.0 < b.0 || (a.0 == b.0 && a.1 < b.1)
}

/// Which of the rows below, at and above `y` drive the column walk: the
/// row at `y` where it is stored, else whichever rows beside it are.
pub open spec fn drivers_for<T>(rows: Map<int, Contig<T>>, y: int) -> Seq<bool> {
    if rows.contains_key(y) {
        seq![false, true, false]
    } else {
        seq![rows.contains_key(y - 1), false, rows.contains_key(y + 1)]
    }
}

/// Whether `e` has passed exactly its items at or before `last`.
pub open spec fn passed_through<'a, T>(e: ContigNeighbourhoodEnumerator<'a, T>, last: int) -> bool {
    forall|x: int| #[trigger] e.has_at(x) ==> (x >= e.cursor() <==> x > last)
}

/// Whether `cols` steps along the rows around `y`, having passed the
/// columns up to `last`: lane `a` walks row `y + a - 1` where that row
/// exists and is absent where it does not, and the drivers follow
/// `drivers_for`.
pub open spec fn columns_for<'a, T>(
    cols: CartesianContigNeighborhoodMultiIterator<'a, T>,
    rows: Map<int, Contig<T>>,
    y: int,
    last: int,
) -> bool {
    &&& cols.wf()
    &&& cols.lanes().len() == 3
    &&& cols.driver_flags() == drivers_for(rows, y)
    &&& forall|a: int| 0 <= a < 3 ==> match #[trigger] cols.lanes()[a] {
        Some(e) => rows.contains_key(y + a - 1) && walks(e, rows[y + a - 1]@) && passed_through(e, last),
        None => !rows.contains_key(y + a - 1),
    }
}

/// The column for which some driver lane is pending, in terms of the rows.
proof fn lemma_pending<'a, T>(cols: CartesianContigNeighborhoodMultiIterator<'a, T>, rows: Map<int, Contig<T>>, y: int, last: int)
    requires
        columns_for(cols, rows, y, last),
        near(rows, y),
    ensures
        forall|k: int, x: int| #[trigger] cols.pending(k, x) ==> x > last && wanted(rows, y, x),
        forall|x: int| x > last && wanted(rows, y, x) ==> exists|k: int| #[trigger] cols.pending(k, x),
{
    assert forall|k: int, x: int| #[trigger] cols.pending(k, x) implies x > last && wanted(rows, y, x) by {
        assert(cols.lanes()[k] == cols.lanes()[k]);
        let e = cols.lanes()[k].unwrap();
        assert(e.has_at(x));
    }
    assert forall|x: int| x > last && wanted(rows, y, x) implies exists|k: int| #[trigger] cols.pending(k, x) by {
        let k: int = if rows.contains_key(y) {
            1
        } else if rows.contains_key(y - 1) && near(rows[y - 1]@, x) {
            0
        } else {
            2
        };
        assert(cols.lanes()[k] == cols.lanes()[k]);
        let e = cols.lanes()[k].unwrap();
        assert(e.has_at(x));
        assert(cols.pending(k, x));
    }
}

/// A column step over the rows around `y` yields the plane's block there,
/// and leaves the lanes walking the same rows, having passed that column.
proof fn lemma_block<'a, T>(
    before: CartesianContigNeighborhoodMultiIterator<'a, T>,
    after: CartesianContigNeighborhoodMultiIterator<'a, T>,
    rows: Map<int, Contig<T>>,
    y: int,
    last: int,
    i: int,
    items: Seq<Option<Neighbourhood<i64, &'a T>>>,
    r: CartesianNeighbourhood<i64, &'a T>,
)
    requires
        columns_for(before, rows, y, last),
        before.sought(&after, i, items),
        after.wf(),
        r.i_row == y,
        r.i_col == i,
        forall|a: int| 0 <= a < 3 ==> match #[trigger] items[a] {
            Some(n) => r.items[a] == n.items,
            None => r.items[a]@ == seq![None::<&'a T>, None, None],
        },
    ensures
        columns_for(after, rows, y, i),
        r.describes(plane_of(rows)),
{
    let m = plane_of(rows);
    assert forall|a: int| 0 <= a < 3 implies match #[trigger] after.lanes()[a] {
        Some(e) => rows.contains_key(y + a - 1) && walks(e, rows[y + a - 1]@) && passed_through(e, i),
        None => !rows.contains_key(y + a - 1),
    } by {
        assert(items[a] == items[a]);
        match before.lanes()[a] {
            Some(p) => {
                let e = after.lanes()[a].unwrap();
                assert forall|k: int| #[trigger] e.has_at(k) == near(rows[y + a - 1]@, k) by {
                    assert(e.has_at(k) == p.has_at(k));
                }
                assert forall|k: int, t: Neighbourhood<i64, &'a T>| #[trigger] e.item_is(k, t) == t.describes(rows[y + a - 1]@, k) by {
                    assert(e.item_is(k, t) == p.item_is(k, t));
                }
                assert forall|x: int| #[trigger] e.has_at(x) implies (x >= e.cursor() <==> x > i) by {
                    assert(p.has_at(x));
                }
            },
            None => {},
        }
    }
    assert forall|a: int, b: int| 0 <= a < 3 && 0 <= b < 3 implies slot_matches(
        #[trigger] r.items[a][b],
        lookup(m, (r.i_col + b - 1, r.i_row + a - 1)),
    ) by {
        assert(items[a] == items[a]);
        let row_y = y + a - 1;
        match before.lanes()[a] {
            Some(p) => {
                let row = rows[row_y]@;
                match items[a] {
                    Some(t) => {
                        assert(p.item_is(i, t));
                        assert(t.describes(row, i));
                        if b == 0 {
                            assert(lookup(m, (i - 1, row_y)) == lookup(row, i - 1));
                        } else if b == 1 {
                            assert(lookup(m, (i, row_y)) == lookup(row, i));
                        } else {
                            assert(lookup(m, (i + 1, row_y)) == lookup(row, i + 1));
                        }
                    },
                    None => {
                        assert(!p.has_at(i));
                        assert(!near(row, i));
                        assert(r.items[a]@[b] is None);
                    },
                }
            },
            None => {
                assert(r.items[a]@[b] is None);
            },
        }
    }
}

/// Walks the cells of a plane that are stored or touch a stored cell, with
/// their 3×3 neighbourhoods, row by row.
pub struct CartesianContigNeighbourhoodEnumerator<'a, T> {
    rows: Ghost<Map<int, Contig<T>>>,
    last_col: Ghost<int>,
    row_enumerator: ContigNeighbourhoodEnumerator<'a, Contig<T>>,
    i_row: Option<i64>,
    column_enumerator: CartesianContigNeighborhoodMultiIterator<'a, T>,
}

impl<'a, T> CartesianContigNeighbourhoodEnumerator<'a, T> {
    /// The rows of the plane being walked.
    pub closed spec fn rows(&self) -> Map<int, Contig<T>> {
        self.rows@
    }

    /// The points of the plane being walked.
    pub open spec fn plane(&self) -> Map<(int, int), T> {
        plane_of(self.rows())
    }

    /// Every wanted cell before this one has been handed out.
    pub closed spec fn cursor(&self) -> (int, int) {
        match self.i_row {
            Some(y) => (y as int, self.last_col@ + 1),
            None => (self.row_enumerator.cursor(), 0),
        }
    }

    /// The walk's own consistency: the row walk and the column walk agree
    /// with the rows, and every wanted cell before the cursor has been passed.
    pub closed spec fn valid(&self) -> bool {
        let rows = self.rows@;
        &&& self.row_enumerator.inv()
        &&& walks(self.row_enumerator, rows)
        &&& rows_wf(rows)
        &&& match self.i_row {
            Some(y) => {
                &&& near(rows, y as int)
                &&& columns_for(self.column_enumerator, rows, y as int, self.last_col@)
                &&& self.row_enumerator.cursor() > y
                &&& forall|k: int| y < k < self.row_enumerator.cursor() ==> !near(rows, k)
            },
            None => {
                &&& self.column_enumerator.wf()
                &&& forall|a: int| 0 <= a < self.column_enumerator.lanes().len() ==> #[trigger] self.column_enumerator.lanes()[a] is None
                &&& forall|k: int| k >= self.row_enumerator.cursor() ==> !near(rows, k)
            },
        }
    }

    fn new(c: &'a CartesianContig<T>) -> (r: CartesianContigNeighbourhoodEnumerator<'a, T>)
        requires
            c.wf(),
        ensures
            r.valid(),
            r.rows() == c.0@,
            forall|y: int, x: int| wanted(c.0@, y, x) ==> !precedes((y, x), r.cursor()),
    {
        let mut row_enumerator = c.0.neighbourhood_enumerator();
        let ghost rows = c.0@;
        let (i_row, column_enumerator) = Self::get_next_row(&mut row_enumerator, Ghost(rows));
        let r = CartesianContigNeighbourhoodEnumerator {
            rows: Ghost(rows),
            last_col: Ghost(before_all_columns()),
            row_enumerator,
            i_row,
            column_enumerator,
        };
        proof {
            assert forall|y: int, x: int| wanted(rows, y, x) implies !precedes((y, x), r.cursor()) by {
                lemma_wanted_in_range(rows, y, x);
            }
        }
        r
    }

    /// Takes the next row neighbourhood and sets up a fresh column walk for it.
    fn get_next_row(
        row_enumerator: &mut ContigNeighbourhoodEnumerator<'a, Contig<T>>,
        rows: Ghost<Map<int, Contig<T>>>,
    ) -> (r: (Option<i64>, CartesianContigNeighborhoodMultiIterator<'a, T>))
        requires
            old(row_enumerator).inv(),
            walks(*old(row_enumerator), rows@),
            rows_wf(rows@),
        ensures
            final(row_enumerator).inv(),
            walks(*final(row_enumerator), rows@),
            match r.0 {
                Some(y) => {
                    &&& old(row_enumerator).cursor() <= y
                    &&& near(rows@, y as int)
                    &&& forall|k: int| old(row_enumerator).cursor() <= k < y ==> !near(rows@, k)
                    &&& final(row_enumerator).cursor() > y
                    &&& forall|k: int| y < k < final(row_enumerator).cursor() ==> !near(rows@, k)
                    &&& columns_for(r.1, rows@, y as int, before_all_columns())
                },
                None => {
                    &&& forall|k: int| k >= old(row_enumerator).cursor() ==> !near(rows@, k)
                    &&& final(row_enumerator).cursor() == old(row_enumerator).cursor()
                    &&& r.1.wf()
                    &&& forall|a: int| 0 <= a < r.1.lanes().len() ==> #[trigger] r.1.lanes()[a] is None
                },
            },
    {
        let ghost re0 = *row_enumerator;
        let row = row_enumerator.next();
        let ghost row_g = row;
        proof {
            assert forall|k: int| #[trigger] near(rows@, k) == re0.has_at(k) by {}
        }
        let i_row = match &row {
            Some(n) => Some(n.i),
            None => None,
        };
        proof {
            if let Some(n) = row_g {
                assert(n.describes(rows@, n.i as int));
                assert forall|a: int| 0 <= a < 3 && (#[trigger] n.items[a]) is Some implies n.items[a].unwrap().wf() by {
                    assert(rows@.contains_key(n.i + a - 1));
                }
            }
        }
        let column_enumerator = Self::multi_iterator_for_row_neighbourhood(row);
        proof {
            if let Some(n) = row_g {
                let y = n.i as int;
                assert forall|a: int| 0 <= a < 3 implies match #[trigger] column_enumerator.lanes()[a] {
                    Some(e) => rows@.contains_key(y + a - 1) && walks(e, rows@[y + a - 1]@) && passed_through(e, before_all_columns()),
                    None => !rows@.contains_key(y + a - 1),
                } by {
                    if let Some(e) = column_enumerator.lanes()[a] {
                        let row_c = rows@[y + a - 1];
                        crate::contig::lemma_near_in_range(row_c.spans@);
                        assert forall|x: int| #[trigger] e.has_at(x) implies (x >= e.cursor() <==> x > before_all_columns()) by {
                            assert(near(row_c@, x));
                        }
                    }
                }
                assert(column_enumerator.driver_flags() =~= drivers_for(rows@, y));
            }
        }
        (i_row, column_enumerator)
    }

    /// The column walk for one row neighbourhood: the row at the centre
    /// drives where present; otherwise the rows on either side do.
    fn multi_iterator_for_row_neighbourhood(row_nbh_o: Option<Neighbourhood<i64, &'a Contig<T>>>) -> (r:
        CartesianContigNeighborhoodMultiIterator<'a, T>)
        requires
            forall|a: int| 0 <= a < 3 && row_nbh_o is Some && (#[trigger] row_nbh_o.unwrap().items[a]) is Some
                ==> row_nbh_o.unwrap().items[a].unwrap().wf(),
        ensures
            r.wf(),
            r.lanes().len() == 3,
            r.driver_flags().len() == 3,
            row_nbh_o is None ==> r.driver_flags() == seq![false, false, false],
            row_nbh_o is Some ==> r.driver_flags() == if row_nbh_o.unwrap().items[1] is Some {
                seq![false, true, false]
            } else {
                seq![row_nbh_o.unwrap().items[0] is Some, false, row_nbh_o.unwrap().items[2] is Some]
            },
            forall|a: int| 0 <= a < 3 ==> match #[trigger] r.lanes()[a] {
                Some(e) => {
                    &&& row_nbh_o is Some
                    &&& row_nbh_o.unwrap().items[a] is Some
                    &&& walks(e, row_nbh_o.unwrap().items[a].unwrap()@)
                    &&& forall|x: int| x < e.cursor() ==> !e.has_at(x)
                },
                None => row_nbh_o is None || row_nbh_o.unwrap().items[a] is None,
            },
    {
        match row_nbh_o {
            Some(row_nbh) => {
                let drivers = match row_nbh.items[1] {
                    Some(_) => vec![false, true, false],
                    None => vec![row_nbh.items[0].is_some(), false, row_nbh.items[2].is_some()],
                };
                let mut iterators: Vec<Option<ContigNeighbourhoodEnumerator<'a, T>>> = Vec::new();
                let mut a: usize = 0;
                while a < 3
                    invariant
                        a <= 3,
                        iterators@.len() == a,
                        forall|b: int| 0 <= b < 3 && (#[trigger] row_nbh.items[b]) is Some ==> row_nbh.items[b].unwrap().wf(),
                        forall|b: int| 0 <= b < a ==> match #[trigger] iterators@[b] {
                            Some(e) => {
                                &&& row_nbh.items[b] is Some
                                &&& e.inv()
                                &&& walks(e, row_nbh.items[b].unwrap()@)
                                &&& forall|x: int| x < e.cursor() ==> !e.has_at(x)
                            },
                            None => row_nbh.items[b] is None,
                        },
                    decreases 3 - a,
                {
                    let it = match row_nbh.items[a] {
                        Some(c) => Some(c.neighbourhood_enumerator()),
                        None => None,
                    };
                    iterators.push(it);
                    proof {
                        assert forall|b: int| 0 <= b < a + 1 implies match #[trigger] iterators@[b] {
                            Some(e) => {
                                &&& row_nbh.items[b] is Some
                                &&& e.inv()
                                &&& walks(e, row_nbh.items[b].unwrap()@)
                                &&& forall|x: int| x < e.cursor() ==> !e.has_at(x)
                            },
                            None => row_nbh.items[b] is None,
                        } by {}
                    }
                    a = a + 1;
                }
                proof {
                    assert(drivers@ =~= if row_nbh.items[1] is Some {
                        seq![false, true, false]
                    } else {
                        seq![row_nbh.items[0] is Some, false, row_nbh.items[2] is Some]
                    });
                }
                MultiIterator::new(iterators, drivers)
            },
            None => {
                let drivers = vec![false, false, false];
                let r = MultiIterator::new(vec![None, None, None], drivers);
                proof {
                    assert(drivers@ =~= seq![false, false, false]);
                }
                r
            },
        }
    }

    /// Moves on to the next row neighbourhood.
    fn advance_row(&mut self)
        requires
            old(self).valid(),
        ensures
            final(self).valid(),
            final(self).rows() == old(self).rows(),
            match final(self).i_row {
                Some(y) => {
                    &&& old(self).row_enumerator.cursor() <= y
                    &&& forall|k: int| old(self).row_enumerator.cursor() <= k < y ==> !near(old(self).rows(), k)
                    &&& final(self).last_col@ == before_all_columns()
                },
                None => {
                    &&& forall|k: int| k >= old(self).row_enumerator.cursor() ==> !near(old(self).rows(), k)
                    &&& final(self).row_enumerator.cursor() == old(self).row_enumerator.cursor()
                },
            },
    {
        let (i_row, column_enumerator) = Self::get_next_row(&mut self.row_enumerator, self.rows);
        self.i_row = i_row;
        self.column_enumerator = column_enumerator;
        self.last_col = Ghost(before_all_columns());
    }

    /// The next cell of the current row neighbourhood, if any.
    fn next_col(&mut self) -> (r: Option<CartesianNeighbourhood<i64, &'a T>>)
        requires
            old(self).valid(),
        ensures
            final(self).valid(),
            final(self).rows() == old(self).rows(),
            match r {
                Some(n) => {
                    &&& old(self).i_row == Some(n.i_row)
                    &&& final(self).i_row == old(self).i_row
                    &&& final(self).row_enumerator == old(self).row_enumerator
                    &&& n.describes(old(self).plane())
                    &&& n.i_col > old(self).last_col@
                    &&& wanted(old(self).rows(), n.i_row as int, n.i_col as int)
                    &&& forall|x: int| old(self).last_col@ < x < n.i_col ==> !wanted(old(self).rows(), n.i_row as int, x)
                    &&& final(self).last_col@ == n.i_col
                },
                None => {
                    &&& *final(self) == *old(self)
                    &&& forall|x: int| old(self).i_row is Some && x > old(self).last_col@
                        ==> !wanted(old(self).rows(), old(self).i_row.unwrap() as int, x)
                },
            },
    {
        let ghost before = self.column_enumerator;
        let ghost last = self.last_col@;
        proof {
            if let Some(y) = self.i_row {
                lemma_pending(before, self.rows@, y as int, last);
            }
        }
        match self.column_enumerator.next() {
            Some((i_col, items)) => {
                proof {
                    if self.i_row is None {
                        let k = choose|k: int| #[trigger] before.pending(k, i_col as int);
                        assert(before.lanes()[k] is None);
                    }
                }
                let i_row = self.i_row.unwrap();
                let r = CartesianNeighbourhood::new(i_row, i_col, items);
                proof {
                    lemma_block(before, self.column_enumerator, self.rows@, i_row as int, last, i_col as int, items@, r);
                    let k = choose|k: int| #[trigger] before.pending(k, i_col as int);
                    assert forall|x: int| last < x < i_col implies !wanted(self.rows@, i_row as int, x) by {
                        if wanted(self.rows@, i_row as int, x) {
                            let k2 = choose|k2: int| #[trigger] before.pending(k2, x);
                        }
                    }
                }
                self.last_col = Ghost(i_col as int);
                Some(r)
            },
            None => {
                proof {
                    if let Some(y) = self.i_row {
                        assert forall|x: int| x > last implies !wanted(self.rows@, y as int, x) by {
                            if wanted(self.rows@, y as int, x) {
                                let k = choose|k: int| #[trigger] before.pending(k, x);
                            }
                        }
                    }
                }
                None
            },
        }
    }

    /// The next wanted cell, with its 3×3 block: rows in ascending order, and
    /// within a row the columns in ascending order.
    pub fn next(&mut self) -> (r: Option<CartesianNeighbourhood<i64, &'a T>>)
        requires
            old(self).valid(),
        ensures
            final(self).valid(),
            final(self).rows() == old(self).rows(),
            match r {
                Some(n) => {
                    &&& n.describes(old(self).plane())
                    &&& wanted(old(self).rows(), n.i_row as int, n.i_col as int)
                    &&& !precedes((n.i_row as int, n.i_col as int), old(self).cursor())
                    &&& forall|y: int, x: int|
                        wanted(old(self).rows(), y, x) && precedes((y, x), (n.i_row as int, n.i_col as int))
                            ==> precedes((y, x), old(self).cursor())
                    &&& final(self).cursor() == (n.i_row as int, n.i_col + 1)
                },
                None => {
                    &&& forall|y: int, x: int| wanted(old(self).rows(), y, x) ==> precedes((y, x), old(self).cursor())
                    &&& forall|y: int, x: int| wanted(old(self).rows(), y, x) ==> precedes((y, x), final(self).cursor())
                },
            },
    {
        let ghost start = *self;
        match self.next_col() {
            Some(n) => Some(n),
            None => {
                self.advance_row();
                proof {
                    if let Some(y2) = self.i_row {
                        lemma_row_has_wanted(self.rows@, y2 as int);
                        lemma_pending(self.column_enumerator, self.rows@, y2 as int, before_all_columns());
                    }
                }
                let r = self.next_col();
                proof {
                    let rows = start.rows@;
                    assert forall|y: int, x: int| wanted(rows, y, x) && (r is None || precedes((y, x), (r.unwrap().i_row as int, r.unwrap().i_col as int)))
                        implies precedes((y, x), start.cursor()) by {
                        lemma_wanted_in_range(rows, y, x);
                    }
                    if r is Some {
                        lemma_wanted_in_range(rows, r.unwrap().i_row as int, r.unwrap().i_col as int);
                    }
                }
                r
            },
        }
    }
}

/// A row that is stored or touches a stored row has a wanted cell, and every
/// wanted cell lies in the columns that a fresh column walk has not passed.
proof fn lemma_row_has_wanted<T>(rows: Map<int, Contig<T>>, y: int)
    requires
        rows_wf(rows),
        near(rows, y),
    ensures
        exists|x: int| x > before_all_columns() && #[trigger] wanted(rows, y, x),
{
    let yy = if rows.contains_key(y) {
        y
    } else if rows.contains_key(y - 1) {
        y - 1
    } else {
        y + 1
    };
    let c = rows[yy];
    assert(c.wf());
    crate::contig::lemma_spans_map_at(c.spans@, 0, c.spans@[0].start());
    let x = c.spans@[0].start();
    crate::contig::lemma_near_in_range(c.spans@);
    assert(near(c@, x));
    assert(wanted(rows, y, x));
}

/// Wanted cells lie within one step of the storable range.
proof fn lemma_wanted_in_range<T>(rows: Map<int, Contig<T>>, y: int, x: int)
    requires
        rows_wf(rows),
        wanted(rows, y, x),
    ensures
        x > before_all_columns(),
{
    let yy = if rows.contains_key(y) {
        y
    } else if rows.contains_key(y - 1) && near(rows[y - 1]@, x) {
        y - 1
    } else {
        y + 1
    };
    crate::contig::lemma_near_in_range(rows[yy].spans@);
}

} // verus!
