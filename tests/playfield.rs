use sparse_grid::cartesian::Coordinate;
use sparse_grid::playfield::{PairwiseOrDefault, Playfield};

fn pairs(rows: &[Vec<u8>]) -> Vec<(u8, u8)> {
    let mut p = PairwiseOrDefault::from(rows);
    let mut out = Vec::new();
    while let Some(pair) = p.next() {
        out.push(pair);
    }
    out
}

#[test]
fn test_pairwise_or_default() {
    let r0 = vec![vec![1u8, 2u8, 3u8], vec![11u8]];

    assert_eq!(pairs(&r0), vec![(1u8, 11u8), (2u8, 0u8), (3u8, 0u8)]);

    assert_eq!(pairs(&r0), vec![(1u8, 11u8), (2u8, 0u8), (3u8, 0u8)]);

    let r1 = vec![vec![1u8, 2u8, 3u8]];
    assert_eq!(pairs(&r1), vec![(1u8, 0u8), (2u8, 0u8), (3u8, 0u8)]);
}

#[test]
fn test_chunks() {
    let rows: Vec<Vec<u8>> = vec![vec![1, 2], vec![3, 4], vec![5, 6]];

    let mut double_row = rows.chunks(2);

    let r0 = double_row.next().unwrap();
    assert_eq!(pairs(r0), vec![(1, 3), (2, 4),]);

    let r1 = double_row.next().unwrap();
    assert_eq!(pairs(r1), vec![(5, 0), (6, 0)]);
}

#[test]
fn test_bits_to_bytes() {
    let rows: Vec<Vec<u8>> = vec![
        vec![0b00111011, 0b11110001],
        vec![0b10101010, 0b10001001],
        vec![0b00001000, 0b10000001],
    ];

    let mut double_row = rows.chunks(2);

    let r0 = double_row.next().unwrap();
    assert_eq!(pairs(r0), vec![(0b00111011, 0b10101010), (0b11110001, 0b10001001),]);

    let r1 = double_row.next().unwrap();
    assert_eq!(pairs(r1), vec![(0b00001000, 0), (0b10000001, 0)]);
}

#[test]
fn pairs_run_to_the_longer_row() {
    let rows = vec![vec![7u8], vec![1u8, 2u8]];
    assert_eq!(pairs(&rows), vec![(7, 1), (0, 2)]);
}

#[test]
fn pack_and_unpack_sixteen_bit_cells() {
    assert_eq!(Playfield::pack((0x03, 0x04)), 0x0403);
    assert_eq!(Playfield::unpack(0x0605), (0x05, 0x06));
    assert_eq!(Playfield::unpack(0x0605), (5, 6));
    assert_eq!(Playfield::unpack(Playfield::pack((0x01, 0x02))), (0x01, 0x02));
}

#[test]
fn test_to_from_bytes_roundtrip() {
    let bytes0: Vec<Vec<u8>> = vec![vec![0x01, 0x02], vec![0x13, 0x14], vec![0x25, 0x26]];
    let origin0 = Coordinate { x: 0, y: 0 };

    // roundtrip
    let p = Playfield::from_rows(&bytes0, origin0);
    let (bytes1, origin1) = p.to_rows();

    // always comes back as even number of rows
    let mut expected = bytes0.clone();
    expected.push(vec![0, 0]);

    assert_eq!(origin1, origin0);
    assert_eq!(bytes1, expected);
}

#[test]
fn zero_cells_leave_gaps_that_come_back_as_zeros() {
    let bytes: Vec<Vec<u8>> = vec![vec![0x01, 0x00, 0x00, 0x07], vec![0x00, 0x00, 0x00, 0x00]];
    let p = Playfield::from_rows(&bytes, Coordinate { x: 0, y: 0 });
    let (rows, origin) = p.to_rows();
    assert_eq!(origin, Coordinate { x: 0, y: 0 });
    assert_eq!(rows, vec![vec![0x01, 0x00, 0x00, 0x07], vec![0x00, 0x00, 0x00, 0x00]]);
}

#[test]
fn rows_placed_away_from_the_origin_keep_the_zero_cell_at_the_origin() {
    let bytes: Vec<Vec<u8>> = vec![vec![0x11], vec![0x22]];
    let p = Playfield::from_rows(&bytes, Coordinate { x: 2, y: 1 });
    let (rows, origin) = p.to_rows();
    assert_eq!(origin, Coordinate { x: 0, y: 0 });
    assert_eq!(rows, vec![vec![0x00], vec![0x00], vec![0x00, 0x00, 0x11], vec![0x00, 0x00, 0x22]]);
}
