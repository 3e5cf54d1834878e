use sparse_grid::cartesian::{CartesianContig, CartesianNeighbourhood, Coordinate};
use sparse_grid::contig::Contig;
use sparse_grid::multi_iterator::SeekableIterator;
use sparse_grid::neighbourhood::Neighbourhood;
use sparse_grid::span::{Span, MAX_INDEX, MIN_INDEX};
use sparse_grid::vec_seekable::{IndexedItem, VecSeekableIterator};

#[test]
fn from_no_points_is_none() {
    assert!(Contig::<u8>::from(vec![]).is_none());
}

#[test]
fn from_keeps_the_last_write_to_an_index() {
    let c = Contig::from(vec![(4, 1u8), (5, 2u8), (4, 3u8)]).unwrap();
    assert_eq!(c.get(4), Some(&3u8));
    assert_eq!(c.get(5), Some(&2u8));
    assert_eq!(c.origin(), 4);
}

#[test]
fn get_mut_changes_the_stored_item() {
    let mut c = Contig::new(-7, 1u8);
    *c.get_mut(-7).unwrap() = 9;
    assert_eq!(c.get(-7), Some(&9u8));
    assert!(c.get_mut(-6).is_none());
}

#[test]
fn extreme_indices_enumerate_without_overflow() {
    let mut c = Contig::new(MAX_INDEX, 1u8);
    c.set(MIN_INDEX, 2u8);
    let mut e = c.neighbourhood_enumerator();
    let mut seen = Vec::new();
    while let Some(n) = e.next() {
        seen.push(n.i);
    }
    assert_eq!(
        seen,
        vec![MIN_INDEX - 1, MIN_INDEX, MIN_INDEX + 1, MAX_INDEX - 1, MAX_INDEX, MAX_INDEX + 1]
    );
    assert_eq!(e.seek(i64::MIN), None);
    assert_eq!(e.next().map(|n| n.i), Some(MIN_INDEX - 1));
    assert_eq!(e.seek(i64::MAX), None);
    assert_eq!(e.next().map(|n| n.i), None);
}

#[test]
fn plain_enumerator_gives_stored_points_in_order() {
    let c = Contig::from(vec![(8, 80u8), (2, 20u8), (3, 30u8)]).unwrap();
    let mut e = c.enumerator();
    let mut got = Vec::new();
    while let Some((i, item)) = e.next() {
        got.push((i, *item));
    }
    assert_eq!(got, vec![(2, 20), (3, 30), (8, 80)]);
}

#[test]
fn span_edges() {
    let mut s = Span::new(5, 50u8);
    s.push_front(40u8);
    s.push_back(60u8);
    assert_eq!(s.origin, 4);
    assert!(s.contains(6) && !s.contains(7) && !s.contains(3));
    assert!(s.adjoins_left(3) && s.adjoins_right(7));
    assert!(s.contains_or_adjoins(3) && s.contains_or_adjoins(7) && !s.contains_or_adjoins(8));
    assert_eq!(s.get_neighbourhood(4), Neighbourhood::new(4, [None, Some(&40u8), Some(&50u8)]));
    assert_eq!(s.get_neighbourhood(6), Neighbourhood::new(6, [Some(&50u8), Some(&60u8), None]));
    let mut other = Span::new(7, 70u8);
    s.append(&mut other);
    assert_eq!(s.items, vec![40u8, 50, 60, 70]);
    assert!(other.items.is_empty());
}

#[test]
fn empty_neighbourhood_has_no_items() {
    let n: Neighbourhood<i64, u8> = Neighbourhood::empty(3);
    assert_eq!(n.i, 3);
    assert_eq!(n.items, [None, None, None]);
}

#[test]
fn cartesian_neighbourhood_stacks_rows_below_at_above() {
    let below = Neighbourhood::new(0, [Some(1u8), None, None]);
    let above = Neighbourhood::new(0, [None, None, Some(3u8)]);
    let n = CartesianNeighbourhood::new(7, 0, vec![Some(below), None, Some(above)]);
    assert_eq!(n.i_row, 7);
    assert_eq!(n.items, [[Some(1u8), None, None], [None, None, None], [None, None, Some(3u8)]]);
}

#[test]
fn rows_enumerator_walks_rows_upwards() {
    let mut cc = CartesianContig::new(0, 3, 1u8);
    cc.set(0, -2, 2u8);
    cc.set(4, 3, 3u8);
    let mut rows = cc.rows_enumerator();
    let mut ys = Vec::new();
    while let Some((y, row)) = rows.next() {
        ys.push((y, row.origin()));
    }
    assert_eq!(ys, vec![(-2, 0), (3, 0)]);
    assert_eq!(cc.origin(), Coordinate { x: 0, y: -2 });
}

#[test]
fn vec_iterator_seeks_before_the_start() {
    let v = vec![None, Some(5), None, Some(7)];
    let mut it = VecSeekableIterator::from(&v);
    assert_eq!(it.peek(), Some(IndexedItem::new(1, 5)));
    assert_eq!(it.seek(-4), None);
    assert_eq!(it.next(), Some(IndexedItem::new(1, 5)));
    assert_eq!(it.seek(2), None);
    assert_eq!(it.next(), Some(IndexedItem::new(3, 7)));
    assert_eq!(it.seek(9), None);
    assert_eq!(it.next(), None);
}
