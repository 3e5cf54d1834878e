use crate::cartesian::{plane_of, CartesianContig, Coordinate};
use crate::contig::Contig;
use crate::neighbourhood::lookup;
use crate::span::{in_range, MAX_INDEX};
use vstd::prelude::*;

verus! {

/// The byte at `k` of `row`, or zero past its end.
pub open spec fn cell_or_zero(row: Seq<u8>, k: int) -> u8 {
    if 0 <= k < row.len() {
        row[k]
    } else {
        0
    }
}

/// The pair of bytes at column `k` of one or two rows, zero where a row
/// is short or missing.
pub open spec fn pair_at(rows: Seq<Vec<u8>>, k: int) -> (u8, u8) {
    (cell_or_zero(rows[0]@, k), if rows.len() > 1 { cell_or_zero(rows[1]@, k) } else { 0 })
}

/// How many pairs one or two rows give: the length of the longer row.
pub open spec fn pair_count(rows: Seq<Vec<u8>>) -> int {
    if rows.len() > 1 && rows[1]@.len() > rows[0]@.len() {
        rows[1]@.len() as int
    } else {
        rows[0]@.len() as int
    }
}

/// Walks one or two rows of bytes side by side, giving a pair per column and
/// filling with zero where a row is short or missing.
pub struct PairwiseOrDefault<'a> {
    rows: &'a [Vec<u8>],
    pos: usize,
}

impl<'a> PairwiseOrDefault<'a> {
    /// The rows being walked.
    pub closed spec fn source(&self) -> Seq<Vec<u8>> {
        self.rows@
    }

    /// How many pairs have been taken.
    pub closed spec fn taken(&self) -> int {
        self.pos as int
    }

    /// One or two rows, and no more pairs taken than there are.
    pub open spec fn valid(&self) -> bool {
        &&& 1 <= self.source().len() <= 2
        &&& 0 <= self.taken() <= pair_count(self.source())
    }

    /// Pairs up the first row with the second, if there is one.
    pub fn from(rows: &'a [Vec<u8>]) -> (r: PairwiseOrDefault<'a>)
        requires
            1 <= rows@.len() <= 2,
        ensures
            r.valid(),
            r.source() == rows@,
            r.taken() == 0,
    {
        PairwiseOrDefault { rows, pos: 0 }
    }

    /// The next pair, if any column is left.
    pub fn next(&mut self) -> (r: Option<(u8, u8)>)
        requires
            old(self).valid(),
        ensures
            final(self).valid(),
            final(self).source() == old(self).source(),
            old(self).taken() < pair_count(old(self).source()) ==> {
                &&& r == Some(pair_at(old(self).source(), old(self).taken()))
                &&& final(self).taken() == old(self).taken() + 1
            },
            old(self).taken() == pair_count(old(self).source()) ==> r is None && final(self).taken() == old(self).taken(),
    {
        let first = &self.rows[0];
        let k = self.pos;
        let in_first = k < first.len();
        let in_second = self.rows.len() > 1 && k < self.rows[1].len();
        if !in_first && !in_second {
            return None;
        }
        let x1 = if in_first {
            first[k]
        } else {
            0
        };
        let x2 = if in_second {
            self.rows[1][k]
        } else {
            0
        };
        self.pos = k + 1;
        Some((x1, x2))
    }
}

/// Two bytes packed into one cell, the first in the low half.
pub open spec fn packed(pair: (u8, u8)) -> u16 {
    (pair.0 as int + 256 * pair.1 as int) as u16
}

/// How many double rows `n` rows make.
pub open spec fn chunk_count(n: int) -> int {
    (n + 1) / 2
}

/// The rows of double row `c`: one or two rows.
pub open spec fn chunk(rows: Seq<Vec<u8>>, c: int) -> Seq<Vec<u8>> {
    rows.subrange(2 * c, if 2 * c + 2 <= rows.len() { 2 * c + 2 } else { rows.len() as int })
}

/// The cell that column `k` of double row `c` packs into.
pub open spec fn cell_of(rows: Seq<Vec<u8>>, c: int, k: int) -> u16 {
    packed(pair_at(chunk(rows, c), k))
}

/// The non-zero cells that `rows` pack into, the first at column `ox` of
/// row `oy`.
pub open spec fn encoded(rows: Seq<Vec<u8>>, ox: int, oy: int) -> Map<(int, int), u16> {
    Map::new(
        |p: (int, int)| {
            let c = p.1 - oy;
            let k = p.0 - ox;
            &&& 0 <= c < chunk_count(rows.len() as int)
            &&& 0 <= k < pair_count(chunk(rows, c))
            &&& cell_of(rows, c, k) != 0
        },
        |p: (int, int)| cell_of(rows, p.1 - oy, p.0 - ox),
    )
}

/// Rows of bits held as double rows: each cell packs a byte of an even row
/// with the byte above it, so that no two rows that are not next to each
/// other can meet in one cell.
pub struct Playfield {
    cc: CartesianContig<u16>,
}

impl View for Playfield {
    type V = Map<(int, int), u16>;

    closed spec fn view(&self) -> Map<(int, int), u16> {
        self.cc@
    }
}

impl Playfield {
    /// The plane of cells is well formed.
    pub closed spec fn wf(&self) -> bool {
        self.cc.wf()
    }

    /// A playfield holding only a zero cell at the origin.
    fn new() -> (r: Playfield)
        ensures
            r.wf(),
            r@ == map![(0int, 0int) => 0u16],
    {
        Playfield { cc: CartesianContig::new(0, 0, 0) }
    }

    /// Packs two bytes into one cell, the first in the low half.
    pub fn pack(pair: (u8, u8)) -> (r: u16)
        ensures
            r == packed(pair),
    {
        pair.0 as u16 + (pair.1 as u16) * 256
    }

    /// Splits a cell into its low and high bytes.
    pub fn unpack(packed_pair: u16) -> (r: (u8, u8))
        ensures
            packed(r) == packed_pair,
            r.0 == packed_pair % 256,
            r.1 == packed_pair / 256,
    {
        ((packed_pair % 256) as u8, (packed_pair / 256) as u8)
    }

    /// Packs rows of bytes, two at a time, into cells placed from `origin`;
    /// zero cells are not stored.
    pub fn from_rows(rows_of_bytes: &[Vec<u8>], origin: Coordinate<i64>) -> (r: Playfield)
        requires
            in_range(origin.x as int),
            in_range(origin.y as int),
            origin.y + rows_of_bytes@.len() <= MAX_INDEX,
            forall|j: int| 0 <= j < rows_of_bytes@.len() ==> origin.x + (#[trigger] rows_of_bytes@[j])@.len() <= MAX_INDEX,
        ensures
            r.wf(),
            r@ == map![(0int, 0int) => 0u16].union_prefer_right(encoded(rows_of_bytes@, origin.x as int, origin.y as int)),
    {
        let ghost rows = rows_of_bytes@;
        let ghost ox = origin.x as int;
        let ghost oy = origin.y as int;
        let ghost seed = map![(0int, 0int) => 0u16];
        let mut playfield = Playfield::new();
        let n: usize = rows_of_bytes.len();
        let mut y_u: usize = 0;
        while y_u < n - n / 2
            invariant
                rows == rows_of_bytes@,
                n == rows.len(),
                playfield.wf(),
                0 <= y_u <= chunk_count(n as int),
                ox == origin.x,
                oy == origin.y,
                in_range(ox),
                in_range(oy),
                oy + n <= MAX_INDEX,
                forall|j: int| 0 <= j < n ==> ox + (#[trigger] rows[j])@.len() <= MAX_INDEX,
                playfield@ == seed.union_prefer_right(encoded(rows, ox, oy).restrict(
                    Set::new(|p: (int, int)| p.1 - oy < y_u),
                )),
            decreases chunk_count(n as int) - y_u,
        {
            let start = 2 * y_u;
            let stop = if n - start >= 2 { start + 2 } else { n };
            let rows_chunk = &rows_of_bytes[start..stop];
            proof {
                assert(rows_chunk@ == chunk(rows, y_u as int));
            }
            let mut pairs = PairwiseOrDefault::from(rows_chunk);
            let y = y_u as i64 + origin.y;
            let mut x_u: usize = 0;
            loop
                invariant
                    rows == rows_of_bytes@,
                    n == rows.len(),
                    playfield.wf(),
                    0 <= y_u < chunk_count(n as int),
                    y == oy + y_u,
                    ox == origin.x,
                    oy == origin.y,
                    in_range(ox),
                    in_range(y as int),
                    forall|j: int| 0 <= j < n ==> ox + (#[trigger] rows[j])@.len() <= MAX_INDEX,
                    pairs.valid(),
                    pairs.source() == chunk(rows, y_u as int),
                    pairs.taken() == x_u,
                    playfield@ == seed.union_prefer_right(encoded(rows, ox, oy).restrict(
                        Set::new(|p: (int, int)| p.1 - oy < y_u || (p.1 - oy == y_u && p.0 - ox < x_u)),
                    )),
                ensures
                    playfield.wf(),
                    x_u == pair_count(chunk(rows, y_u as int)),
                    playfield@ == seed.union_prefer_right(encoded(rows, ox, oy).restrict(
                        Set::new(|p: (int, int)| p.1 - oy < y_u || (p.1 - oy == y_u && p.0 - ox < x_u)),
                    )),
                decreases pair_count(chunk(rows, y_u as int)) - pairs.taken(),
            {
                match pairs.next() {
                    Some(p) => {
                        let merged_pair = Self::pack(p);
                        proof {
                            assert forall|j: int| 0 <= j < rows.len() implies (#[trigger] rows[j])@.len() <= MAX_INDEX - ox by {}
                            lemma_chunk_width(rows, y_u as int, MAX_INDEX - ox);
                        }
                        let x = (x_u as i128 + origin.x as i128) as i64;
                        let ghost before = playfield@;
                        if merged_pair != 0 {
                            playfield.cc.set(x, y, merged_pair);
                        }
                        proof {
                            let dom_after = Set::new(|q: (int, int)| q.1 - oy < y_u || (q.1 - oy == y_u && q.0 - ox < x_u + 1));
                            assert(playfield@ =~= seed.union_prefer_right(encoded(rows, ox, oy).restrict(dom_after)));
                        }
                        x_u = x_u + 1;
                    },
                    None => {
                        break;
                    },
                }
            }
            proof {
                let dom_after = Set::new(|q: (int, int)| q.1 - oy < y_u + 1);
                assert(playfield@ =~= seed.union_prefer_right(encoded(rows, ox, oy).restrict(dom_after)));
            }
            y_u = y_u + 1;
        }
        proof {
            assert(encoded(rows, ox, oy).restrict(Set::new(|p: (int, int)| p.1 - oy < y_u)) =~= encoded(rows, ox, oy));
        }
        playfield
    }
}

/// The low byte of a cell, or zero where there is none.
pub open spec fn low_byte(cell: Option<u16>) -> u8 {
    match cell {
        Some(b) => (b % 256) as u8,
        None => 0,
    }
}

/// The high byte of a cell, or zero where there is none.
pub open spec fn high_byte(cell: Option<u16>) -> u8 {
    match cell {
        Some(b) => (b / 256) as u8,
        None => 0,
    }
}

/// Whether `lower` and `upper` are row `y` of `plane` unpacked from column
/// `ox` up to its last stored cell, zeros filling the gaps.
pub open spec fn decodes_row(lower: Seq<u8>, upper: Seq<u8>, plane: Map<(int, int), u16>, y: int, ox: int) -> bool {
    &&& lower.len() == upper.len()
    &&& forall|k: int| 0 <= k < lower.len() ==> lower[k] == low_byte(lookup(plane, (ox + k, y)))
        && upper[k] == high_byte(lookup(plane, (ox + k, y)))
    &&& forall|x: int| #[trigger] plane.contains_key((x, y)) ==> ox <= x < ox + lower.len()
    &&& lower.len() > 0 ==> plane.contains_key((ox + lower.len() - 1, y))
}

/// Whether some cell of row `y` is stored.
pub open spec fn row_stored(plane: Map<(int, int), u16>, y: int) -> bool {
    exists|x: int| #[trigger] plane.contains_key((x, y))
}

/// Whether `out` holds, for each stored row of `plane` in ascending order,
/// its low bytes and then its high bytes, unpacked from column `ox`.
pub open spec fn decodes(out: Seq<Vec<u8>>, plane: Map<(int, int), u16>, ox: int) -> bool {
    exists|ys: Seq<int>|
        {
            &&& out.len() == 2 * ys.len()
            &&& forall|j: int, k: int| 0 <= j < k < ys.len() ==> ys[j] < ys[k]
            &&& forall|y: int| row_stored(plane, y) <==> ys.contains(y)
            &&& forall|j: int| 0 <= j < ys.len() ==> decodes_row(out[2 * j]@, out[2 * j + 1]@, plane, #[trigger] ys[j], ox)
        }
}

impl Playfield {
    /// Unpacks every stored row into a row of low bytes and a row of high
    /// bytes, each starting at the lowest stored column; gives them with
    /// the lowest stored column and row.
    pub fn to_rows(&self) -> (r: (Vec<Vec<u8>>, Coordinate<i64>))
        requires
            self.wf(),
            forall|p: (int, int), q: (int, int)| #[trigger] self@.contains_key(p) && #[trigger] self@.contains_key(q) ==> p.0 - q.0 < usize::MAX,
        ensures
            exists|p: (int, int)| #[trigger] self@.contains_key(p) && p.0 == r.1.x,
            exists|p: (int, int)| #[trigger] self@.contains_key(p) && p.1 == r.1.y,
            forall|p: (int, int)| #[trigger] self@.contains_key(p) ==> r.1.x <= p.0 && r.1.y <= p.1,
            decodes(r.0@, self@, r.1.x as int),
    {
        let origin = self.cc.origin();
        let ghost plane = self@;
        let ghost rows_map = self.cc.0@;
        let ghost ox = origin.x as int;
        let mut rows: Vec<Vec<u8>> = Vec::new();
        let ghost mut ys: Seq<int> = Seq::empty();
        let mut row_enum = self.cc.rows_enumerator();
        loop
            invariant
                self.wf(),
                plane == self@,
                plane == plane_of(rows_map),
                rows_map == self.cc.0@,
                ox == origin.x,
                forall|p: (int, int)| #[trigger] plane.contains_key(p) ==> ox <= p.0,
                forall|p: (int, int), q: (int, int)| #[trigger] plane.contains_key(p) && #[trigger] plane.contains_key(q) ==> p.0 - q.0 < usize::MAX,
                exists|p: (int, int)| #[trigger] plane.contains_key(p) && p.0 == ox,
                row_enum.valid(),
                row_enum.points() == rows_map,
                rows@.len() == 2 * ys.len(),
                forall|j: int, k: int| 0 <= j < k < ys.len() ==> ys[j] < ys[k],
                forall|j: int| 0 <= j < ys.len() ==> ys[j] < row_enum.position(),
                forall|y: int| y < row_enum.position() ==> (row_stored(plane, y) <==> ys.contains(y)),
                forall|j: int| 0 <= j < ys.len() ==> decodes_row(rows@[2 * j]@, rows@[2 * j + 1]@, plane, #[trigger] ys[j], ox),
            ensures
                rows@.len() == 2 * ys.len(),
                forall|j: int, k: int| 0 <= j < k < ys.len() ==> ys[j] < ys[k],
                forall|y: int| row_stored(plane, y) <==> ys.contains(y),
                forall|j: int| 0 <= j < ys.len() ==> decodes_row(rows@[2 * j]@, rows@[2 * j + 1]@, plane, #[trigger] ys[j], ox),
            decreases row_enum.spans_left(), row_enum.items_left(),
        {
            let ghost pos0 = row_enum.position();
            match row_enum.next() {
                Some((y, row)) => {
                    proof {
                        assert(rows_map.contains_key(y as int));
                        assert(row.wf());
                        let q = choose|q: (int, int)| #[trigger] plane.contains_key(q) && q.0 == ox;
                        assert forall|x: int| #[trigger] row@.contains_key(x) implies ox <= x && x - ox < usize::MAX by {
                            assert(plane.contains_key((x, y as int)));
                        }
                    }
                    let (lower_items, upper_items) = Self::unpack_row(row, origin.x, Ghost(plane), Ghost(y as int));
                    let ghost rows0 = rows@;
                    rows.push(lower_items);
                    rows.push(upper_items);
                    proof {
                        let ys0 = ys;
                        ys = ys.push(y as int);
                        assert(plane.contains_key((ox + lower_items@.len() - 1, y as int)));
                        assert forall|j: int| 0 <= j < ys.len() implies decodes_row(rows@[2 * j]@, rows@[2 * j + 1]@, plane, #[trigger] ys[j], ox) by {
                            if j < ys0.len() {
                                assert(ys[j] == ys0[j]);
                                assert(rows@[2 * j] == rows0[2 * j]);
                                assert(rows@[2 * j + 1] == rows0[2 * j + 1]);
                            }
                        }
                        assert forall|y2: int| y2 < row_enum.position() implies (row_stored(plane, y2) <==> ys.contains(y2)) by {
                            if y2 < pos0 {
                                if ys0.contains(y2) {
                                    let j = choose|j: int| 0 <= j < ys0.len() && ys0[j] == y2;
                                    assert(ys[j] == y2);
                                }
                                if ys.contains(y2) {
                                    let j = choose|j: int| 0 <= j < ys.len() && ys[j] == y2;
                                    if j < ys0.len() {
                                        assert(ys0[j] == y2);
                                    }
                                }
                            } else if y2 == y {
                                assert(ys[ys.len() - 1] == y2);
                            } else {
                                assert(!rows_map.contains_key(y2));
                                if row_stored(plane, y2) {
                                    let x = choose|x: int| #[trigger] plane.contains_key((x, y2));
                                }
                                if ys.contains(y2) {
                                    let j = choose|j: int| 0 <= j < ys.len() && ys[j] == y2;
                                    if j < ys0.len() {
                                        assert(ys0[j] < pos0);
                                    }
                                }
                            }
                        }
                    }
                },
                None => {
                    proof {
                        assert forall|y2: int| row_stored(plane, y2) <==> ys.contains(y2) by {
                            if y2 >= row_enum.position() {
                                if row_stored(plane, y2) {
                                    let x = choose|x: int| #[trigger] plane.contains_key((x, y2));
                                    assert(rows_map.contains_key(y2));
                                }
                                if ys.contains(y2) {
                                    let j = choose|j: int| 0 <= j < ys.len() && ys[j] == y2;
                                }
                            }
                        }
                    }
                    break;
                },
            }
        }
        proof {
            assert(decodes(rows@, plane, ox));
        }
        (rows, origin)
    }

    /// Unpacks one stored row, from column `ox` up to its last stored cell.
    fn unpack_row(row: &Contig<u16>, ox: i64, plane: Ghost<Map<(int, int), u16>>, y: Ghost<int>) -> (r: (Vec<u8>, Vec<u8>))
        requires
            row.wf(),
            forall|x: int| #[trigger] row@.contains_key(x) ==> lookup(plane@, (x, y@)) == Some(row@[x]),
            forall|x: int| #[trigger] plane@.contains_key((x, y@)) ==> row@.contains_key(x),
            forall|x: int| #[trigger] row@.contains_key(x) ==> ox <= x && x - ox < usize::MAX,
        ensures
            decodes_row(r.0@, r.1@, plane@, y@, ox as int),
            r.0@.len() > 0,
    {
        let mut lower_items: Vec<u8> = Vec::new();
        let mut upper_items: Vec<u8> = Vec::new();
        let mut cells = row.enumerator();
        loop
            invariant
                row.wf(),
                cells.valid(),
                cells.points() == row@,
                forall|x: int| #[trigger] row@.contains_key(x) ==> lookup(plane@, (x, y@)) == Some(row@[x]),
                forall|x: int| #[trigger] plane@.contains_key((x, y@)) ==> row@.contains_key(x),
                forall|x: int| #[trigger] row@.contains_key(x) ==> ox <= x && x - ox < usize::MAX,
                lower_items@.len() == upper_items@.len(),
                lower_items@.len() == 0 || ox + lower_items@.len() <= cells.position(),
                forall|k: int| 0 <= k < lower_items@.len() ==> lower_items@[k] == low_byte(lookup(plane@, (ox + k, y@)))
                    && upper_items@[k] == high_byte(lookup(plane@, (ox + k, y@))),
                forall|x: int| #[trigger] row@.contains_key(x) && x < cells.position() ==> x < ox + lower_items@.len(),
                lower_items@.len() > 0 ==> row@.contains_key(ox + lower_items@.len() - 1),
                lower_items@.len() == 0 ==> forall|x: int| #[trigger] row@.contains_key(x) ==> x >= cells.position(),
            ensures
                lower_items@.len() == upper_items@.len(),
                forall|k: int| 0 <= k < lower_items@.len() ==> lower_items@[k] == low_byte(lookup(plane@, (ox + k, y@)))
                    && upper_items@[k] == high_byte(lookup(plane@, (ox + k, y@))),
                forall|x: int| #[trigger] row@.contains_key(x) ==> x < ox + lower_items@.len(),
                lower_items@.len() > 0 ==> row@.contains_key(ox + lower_items@.len() - 1),
            decreases cells.spans_left(), cells.items_left(),
        {
            match cells.next() {
                Some((x, merged_item)) => {
                    proof {
                        assert(row@.contains_key(x as int));
                    }
                    while (lower_items.len() as i128) < x as i128 - ox as i128
                        invariant
                            lower_items@.len() == upper_items@.len(),
                            ox + lower_items@.len() <= x,
                            x - ox < usize::MAX,
                            forall|x2: int| #[trigger] row@.contains_key(x2) && x2 < x ==> x2 < ox + lower_items@.len(),
                            forall|x2: int| #[trigger] plane@.contains_key((x2, y@)) ==> row@.contains_key(x2),
                            forall|k: int| 0 <= k < lower_items@.len() ==> lower_items@[k] == low_byte(lookup(plane@, (ox + k, y@)))
                                && upper_items@[k] == high_byte(lookup(plane@, (ox + k, y@))),
                        decreases x - ox - lower_items@.len(),
                    {
                        proof {
                            let k = lower_items@.len() as int;
                            assert(!row@.contains_key(ox + k));
                            assert(!plane@.contains_key((ox + k, y@)));
                        }
                        lower_items.push(0);
                        upper_items.push(0);
                    }
                    let (lower, upper) = Self::unpack(*merged_item);
                    proof {
                        assert(lookup(plane@, (x as int, y@)) == Some(row@[x as int]));
                        assert(lower_items@.len() == x - ox);
                    }
                    lower_items.push(lower);
                    upper_items.push(upper);
                },
                None => {
                    break;
                },
            }
        }
        proof {
            crate::contig::lemma_spans_map_at(row.spans@, 0, row.spans@[0].start());
            assert(row@.contains_key(row.spans@[0].start()));
        }
        (lower_items, upper_items)
    }
}

/// A double row is no wider than the bound on all of its rows.
proof fn lemma_chunk_width(rows: Seq<Vec<u8>>, c: int, bound: int)
    requires
        0 <= c < chunk_count(rows.len() as int),
        forall|j: int| 0 <= j < rows.len() ==> (#[trigger] rows[j])@.len() <= bound,
    ensures
        pair_count(chunk(rows, c)) <= bound,
{
    assert(chunk(rows, c)[0] == rows[2 * c]);
    if chunk(rows, c).len() > 1 {
        assert(chunk(rows, c)[1] == rows[2 * c + 1]);
    }
}

} // verus!
