use sparse_grid::multi_iterator::{MultiIterator, SeekableIterator};
use sparse_grid::vec_seekable::{IndexedItem, VecSeekableIterator};

fn collect(mut it: VecSeekableIterator) -> Vec<IndexedItem> {
    let mut out = Vec::new();
    while let Some(item) = it.next() {
        out.push(item);
    }
    out
}

fn multi_iterate(mut mi: MultiIterator<VecSeekableIterator, IndexedItem>) -> Vec<Vec<Option<i32>>> {
    let mut out = Vec::new();
    while let Some((_, iios)) = mi.next() {
        out.push(
            iios.iter()
                .map(|iio| iio.as_ref().map(|ii| ii.item))
                .collect::<Vec<Option<i32>>>(),
        );
    }
    out
}

#[test]
fn test_multi_iterator() {
    let v1 = vec![None, Some(12)];
    let v2 = vec![Some(21), Some(22)];
    let v3 = vec![Some(31), None, Some(33)];

    assert_eq![collect(VecSeekableIterator::from(&v1)), vec![IndexedItem::new(1, 12)]];

    assert_eq![
        collect(VecSeekableIterator::from(&v2)),
        vec![IndexedItem::new(0, 21), IndexedItem::new(1, 22)]
    ];

    assert_eq![
        collect(VecSeekableIterator::from(&v3)),
        vec![IndexedItem::new(0, 31), IndexedItem::new(2, 33)]
    ];

    assert_eq!(
        multi_iterate(MultiIterator::new(
            vec![
                Some(VecSeekableIterator::from(&v1)),
                Some(VecSeekableIterator::from(&v2)),
                Some(VecSeekableIterator::from(&v3)),
            ],
            vec![false, true, false],
        )),
        vec![vec![None, Some(21), Some(31)], vec![Some(12), Some(22), None],]
    );

    assert_eq!(
        multi_iterate(MultiIterator::new(
            vec![
                Some(VecSeekableIterator::from(&v1)),
                Some(VecSeekableIterator::from(&v2)),
                Some(VecSeekableIterator::from(&v3)),
            ],
            vec![true, true, false],
        )),
        vec![vec![None, Some(21), Some(31)], vec![Some(12), Some(22), None],]
    );

    assert_eq!(
        multi_iterate(MultiIterator::new(
            vec![
                Some(VecSeekableIterator::from(&v1)),
                Some(VecSeekableIterator::from(&v2)),
                Some(VecSeekableIterator::from(&v3)),
            ],
            vec![false, false, true],
        )),
        vec![vec![None, Some(21), Some(31)], vec![None, None, Some(33)],]
    );

    assert_eq!(
        multi_iterate(MultiIterator::new(
            vec![
                Some(VecSeekableIterator::from(&v1)),
                Some(VecSeekableIterator::from(&v2)),
                Some(VecSeekableIterator::from(&v3)),
            ],
            vec![true, false, true],
        )),
        vec![
            vec![None, Some(21), Some(31)],
            vec![Some(12), Some(22), None],
            vec![None, None, Some(33)],
        ]
    );
}
