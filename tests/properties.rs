use sparse_grid::cartesian::{CartesianContig, CartesianNeighbourhood};
use sparse_grid::contig::Contig;
use sparse_grid::multi_iterator::{MultiIterator, SeekableIterator};
use sparse_grid::neighbourhood::Neighbourhood;
use sparse_grid::vec_seekable::{IndexedItem, VecSeekableIterator};

fn walk(c: &Contig<u8>) -> Vec<Neighbourhood<i64, &u8>> {
    let mut e = c.neighbourhood_enumerator();
    let mut out = Vec::new();
    while let Some(n) = e.next() {
        out.push(n);
    }
    out
}

fn build(points: &[i64]) -> Contig<u8> {
    Contig::from(points.iter().map(|&i| (i, (i * 3) as u8)).collect()).unwrap()
}

#[test]
fn write_order_does_not_change_spans() {
    let orders: Vec<Vec<i64>> = vec![
        vec![10, 11, 13, 14, 20],
        vec![20, 14, 13, 11, 10],
        vec![13, 10, 20, 11, 14],
        vec![11, 20, 14, 10, 13],
        vec![14, 11, 10, 13, 20, 12],
        vec![12, 20, 10, 14, 11, 13],
    ];
    let first = build(&orders[0]);
    let second = build(&orders[4]);
    for order in &orders {
        let c = build(order);
        if order.contains(&12) {
            assert_eq!(c, second);
        } else {
            assert_eq!(c, first);
        }
    }
    assert_eq!(first.spans.len(), 3);
    assert_eq!(second.spans.len(), 2);
}

#[test]
fn spans_never_touch_after_writes() {
    let mut c = Contig::new(0, 0u8);
    let writes: Vec<i64> = vec![5, 3, 9, 7, 4, 1, 12, 8, 2, 15, 14, 6, 20, 18, 19, 10];
    for (k, &i) in writes.iter().enumerate() {
        c.set(i, k as u8);
        for pair in c.spans.windows(2) {
            let last = pair[0].origin + pair[0].items.len() as i64 - 1;
            assert!(last < pair[1].origin - 1, "spans touch after writing {}", i);
        }
        for s in &c.spans {
            assert!(!s.items.is_empty());
        }
    }
}

#[test]
fn gap_of_one_is_filled_by_merging_into_one_span() {
    let mut c = Contig::new(10, 1u8);
    c.set(12, 3u8);
    assert_eq!(c.spans.len(), 2);
    c.set(11, 2u8);
    assert_eq!(c.spans.len(), 1);
    assert_eq!(c.spans[0].origin, 10);
    assert_eq!(c.spans[0].items, vec![1u8, 2u8, 3u8]);
}

#[test]
fn enumeration_of_the_five_point_contig() {
    let c = Contig::from(vec![(10, 10u8), (11, 11u8), (13, 13u8), (14, 14u8), (20, 20u8)]).unwrap();
    let all = walk(&c);
    let indices: Vec<i64> = all.iter().map(|n| n.i).collect();
    assert_eq!(indices, vec![9, 10, 11, 12, 13, 14, 15, 19, 20, 21]);
    assert_eq!(all[3], Neighbourhood::new(12, [Some(&11u8), None, Some(&13u8)]));
    assert_eq!(all[0], Neighbourhood::new(9, [None, None, Some(&10u8)]));
}

#[test]
fn seeking_agrees_with_a_full_walk() {
    let c = build(&[3, 4, 6, 10, 11, 12, 30]);
    let full = walk(&c);
    for i in -2..36i64 {
        let mut e = c.neighbourhood_enumerator();
        // move the cursor somewhere else first, forwards and backwards
        e.seek(11);
        e.next();
        let mut got = Vec::new();
        if let Some(n) = e.seek(i) {
            got.push(n);
        }
        while let Some(n) = e.next() {
            got.push(n);
        }
        let expected: Vec<Neighbourhood<i64, &u8>> = full.iter().filter(|n| n.i >= i).map(|n| Neighbourhood::new(n.i, n.items)).collect();
        assert_eq!(got, expected, "seek to {}", i);
    }
}

#[test]
fn enumeration_from_an_index_starts_at_the_first_near_index() {
    let c = build(&[10, 11, 20]);
    let mut e = c.neighbourhood_enumerator_from(14);
    assert_eq!(e.next().map(|n| n.i), Some(19));
    let mut e = c.neighbourhood_enumerator_from(12);
    assert_eq!(e.next().map(|n| n.i), Some(12));
    let mut e = c.neighbourhood_enumerator_from(22);
    assert_eq!(e.next().map(|n| n.i), None);
}

#[test]
fn peek_does_not_advance() {
    let c = build(&[5]);
    let mut e = c.neighbourhood_enumerator();
    assert_eq!(e.peek().map(|n| n.i), Some(4));
    assert_eq!(e.peek().map(|n| n.i), Some(4));
    assert_eq!(e.next().map(|n| n.i), Some(4));
    assert_eq!(e.peek().map(|n| n.i), Some(5));
}

#[test]
fn plane_reads_back_what_was_written() {
    let points: Vec<(i64, i64, u8)> = vec![(0, 0, 1), (3, 0, 2), (1, 2, 3), (-2, 4, 4), (5, 4, 5), (2, -1, 6)];
    let mut cc = CartesianContig::new(points[0].0, points[0].1, points[0].2);
    for &(x, y, v) in &points[1..] {
        cc.set(x, y, v);
    }
    for x in -4..8i64 {
        for y in -3..7i64 {
            let expected = points.iter().find(|p| p.0 == x && p.1 == y).map(|p| &p.2);
            assert_eq!(cc.get(x, y), expected, "at ({}, {})", x, y);
        }
    }
}

fn plane_walk(cc: &CartesianContig<u8>) -> Vec<CartesianNeighbourhood<i64, &u8>> {
    let mut e = cc.neighbourhood_enumerator();
    let mut out = Vec::new();
    while let Some(n) = e.next() {
        out.push(n);
    }
    out
}

#[test]
fn cartesian_block_around_the_first_row() {
    let mut cc = CartesianContig::new(0, 0, 0u8);
    cc.set(1, 0, 1u8);
    cc.set(2, 0, 2u8);
    cc.set(1, 1, 11u8);
    let all = plane_walk(&cc);
    let at = all.iter().find(|n| n.i_row == 0 && n.i_col == 1).unwrap();
    assert_eq!(
        at.items,
        [[None, None, None], [Some(&0u8), Some(&1u8), Some(&2u8)], [None, Some(&11u8), None]]
    );
}

#[test]
fn every_cartesian_block_matches_the_plane_and_comes_in_order() {
    let mut cc = CartesianContig::new(0, 0, 7u8);
    cc.set(4, 0, 8u8);
    cc.set(2, 2, 9u8);
    cc.set(-3, 5, 10u8);
    let all = plane_walk(&cc);
    for w in all.windows(2) {
        assert!((w[0].i_row, w[0].i_col) < (w[1].i_row, w[1].i_col));
    }
    for n in &all {
        for a in 0..3i64 {
            for b in 0..3i64 {
                assert_eq!(n.items[a as usize][b as usize], cc.get(n.i_col + b - 1, n.i_row + a - 1));
            }
        }
    }
    // the row between two stored rows is walked where either of them drives
    let row_one: Vec<i64> = all.iter().filter(|n| n.i_row == 1).map(|n| n.i_col).collect();
    assert_eq!(row_one, vec![-1, 0, 1, 2, 3, 4, 5]);
}

#[test]
fn only_driver_lanes_decide_the_steps() {
    let v1 = vec![None, Some(12)];
    let v2 = vec![Some(21), Some(22)];
    let v3 = vec![Some(31), None, Some(33)];
    let mut mi: MultiIterator<VecSeekableIterator, IndexedItem> = MultiIterator::new(
        vec![
            Some(VecSeekableIterator::from(&v1)),
            Some(VecSeekableIterator::from(&v2)),
            Some(VecSeekableIterator::from(&v3)),
        ],
        vec![false, true, false],
    );
    let mut steps = Vec::new();
    while let Some((i, items)) = mi.next() {
        steps.push((i, items));
    }
    // one step per index that the driving lane holds
    assert_eq!(steps.len(), 2);
    assert_eq!(steps[1].0, 1);
    assert_eq!(
        steps[1].1,
        vec![Some(IndexedItem::new(1, 12)), Some(IndexedItem::new(1, 22)), None]
    );
}

#[test]
fn multi_iterator_without_drivers_is_empty() {
    let v = vec![Some(1), Some(2)];
    let mut mi: MultiIterator<VecSeekableIterator, IndexedItem> =
        MultiIterator::new(vec![Some(VecSeekableIterator::from(&v)), None], vec![false, true]);
    assert!(mi.next().is_none());
}

#[test]
fn cartesian_walk_stays_finished() {
    let cc = CartesianContig::new(2, 2, 1u8);
    let mut e = cc.neighbourhood_enumerator();
    let mut count = 0;
    while e.next().is_some() {
        count += 1;
    }
    assert_eq!(count, 9);
    assert!(e.next().is_none());
    assert!(e.next().is_none());
}
