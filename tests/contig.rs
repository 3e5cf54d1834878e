use sparse_grid::contig::Contig;
use sparse_grid::enumerators::ContigNeighbourhoodEnumerator;
use sparse_grid::neighbourhood::Neighbourhood;
use sparse_grid::seekable::SeekableIterator;
use sparse_grid::span::Span;
use std::cmp::Ordering;

fn span(origin: i64, items: Vec<u8>) -> Span<u8> {
    Span { origin, items }
}

fn seen(n: Option<Neighbourhood<i64, &u8>>) -> Option<(i64, Option<&u8>)> {
    n.map(|n| (n.i, n.items[1]))
}

#[test]
fn test_span_cmp() {
    assert_eq!(span(1, vec![]).cmp(&0), Ordering::Greater);
    assert_eq!(span(1, vec![]).cmp(&1), Ordering::Less);
    assert_eq!(span(1, vec![]).cmp(&2), Ordering::Less);
    assert_eq!(span(1, vec![7u8]).cmp(&0), Ordering::Greater);
    assert_eq!(span(1, vec![7u8]).cmp(&1), Ordering::Equal);
    assert_eq!(span(1, vec![7u8]).cmp(&2), Ordering::Less);
    assert_eq!(span(1, vec![5u8, 7u8]).cmp(&2), Ordering::Equal);
}

#[test]
fn test_spans_binary_search() {
    let spans = vec![span(0, vec![5u8, 7u8]), span(3, vec![3u8])];

    assert_eq!(spans.binary_search_by(|span| span.cmp(&-1)), Err(0));
    assert_eq!(spans.binary_search_by(|span| span.cmp(&1)), Ok(0));
    assert_eq!(spans.binary_search_by(|span| span.cmp(&2)), Err(1));
    assert_eq!(spans.binary_search_by(|span| span.cmp(&3)), Ok(1));
    assert_eq!(spans.binary_search_by(|span| span.cmp(&4)), Err(2));
}

#[test]
fn test_contig_set() {
    let c = &mut Contig::new(10, 10u8);
    assert_eq!(*c, Contig { spans: vec![span(10, vec![10u8])] });

    c.set(11, 11u8);
    assert_eq!(*c, Contig { spans: vec![span(10, vec![10u8, 11u8])] });

    c.set(9, 9u8);
    assert_eq!(*c, Contig { spans: vec![span(9, vec![9u8, 10u8, 11u8])] });

    c.set(7, 7u8);
    assert_eq!(
        *c,
        Contig { spans: vec![span(7, vec![7u8]), span(9, vec![9u8, 10u8, 11u8])] }
    );

    c.set(8, 8u8);
    assert_eq!(
        *c,
        Contig { spans: vec![span(7, vec![7u8, 8u8, 9u8, 10u8, 11u8])] }
    );
}

#[test]
fn test_contig_get() {
    let mut c = Contig::new(10, 10u8);

    c.set(11, 11u8);
    c.set(13, 13u8);

    assert_eq!(c.get(9), None);
    assert_eq!(c.get(10), Some(&10u8));
    assert_eq!(c.get(11), Some(&11u8));
    assert_eq!(c.get(12), None);
    assert_eq!(c.get(13), Some(&13u8));
    assert_eq!(c.get(14), None);
}

#[test]
fn test_contig_find_with_adjacent() {
    let c = Contig::from(vec![(10, 10u8), (11, 11u8), (13, 13u8), (14, 14u8), (20, 20u8)]).unwrap();

    assert_eq!(c.find_with_adjacent(-1), (0, 9));
    assert_eq!(c.find_with_adjacent(9), (0, 9));
    assert_eq!(c.find_with_adjacent(10), (0, 10));
    assert_eq!(c.find_with_adjacent(11), (0, 11));
    assert_eq!(c.find_with_adjacent(12), (1, 12));
    assert_eq!(c.find_with_adjacent(13), (1, 13));
    assert_eq!(c.find_with_adjacent(14), (1, 14));
    assert_eq!(c.find_with_adjacent(15), (1, 15));
    assert_eq!(c.find_with_adjacent(16), (2, 19));
    assert_eq!(c.find_with_adjacent(20), (2, 20));
    assert_eq!(c.find_with_adjacent(21), (2, 21));
    assert_eq!(c.find_with_adjacent(100), (3, 100));
}

fn enumerator_as_vec(c: &Contig<u8>) -> Vec<Neighbourhood<i64, &u8>> {
    let mut e: ContigNeighbourhoodEnumerator<u8> = c.neighbourhood_enumerator();
    let mut out = Vec::new();
    while let Some(n) = e.next() {
        out.push(n);
    }
    out
}

#[test]
fn test_contig_neighbourhood_enumerator() {
    let c = Contig::from(vec![(10, 10), (11, 11), (13, 13), (14, 14), (20, 20)]).unwrap();

    assert_eq!(
        enumerator_as_vec(&c),
        vec![
            Neighbourhood::new(9, [None, None, Some(&10)]),
            Neighbourhood::new(10, [None, Some(&10), Some(&11)]),
            Neighbourhood::new(11, [Some(&10), Some(&11), None]),
            Neighbourhood::new(12, [Some(&11), None, Some(&13)]),
            Neighbourhood::new(13, [None, Some(&13), Some(&14)]),
            Neighbourhood::new(14, [Some(&13), Some(&14), None]),
            Neighbourhood::new(15, [Some(&14), None, None]),
            Neighbourhood::new(19, [None, None, Some(&20)]),
            Neighbourhood::new(20, [None, Some(&20), None]),
            Neighbourhood::new(21, [Some(&20), None, None]),
        ]
    );
}

#[test]
fn test_contig_neighbourhood_enumerator_seek() {
    let c = Contig::from(vec![
        (10, 10u8),
        (11, 11u8),
        (13, 13u8),
        (14, 114u8),
        (20, 120u8),
        (30, 130u8),
    ])
    .unwrap();
    let mut e = c.neighbourhood_enumerator();

    assert_eq!(seen(e.next()), Some((9, None)));
    assert_eq!(seen(e.next()), Some((10, Some(&10))));
    assert_eq!(seen(e.next()), Some((11, Some(&11))));
    assert_eq!(seen(e.next()), Some((12, None)));
    assert_eq!(seen(e.next()), Some((13, Some(&13))));

    assert_eq!(seen(e.seek(10)), Some((10, Some(&10))));
    assert_eq!(seen(e.next()), Some((11, Some(&11))));
    assert_eq!(seen(e.next()), Some((12, None)));

    assert_eq!(e.seek(-1), None);
    assert_eq!(seen(e.next()), Some((9, None)));
    assert_eq!(seen(e.next()), Some((10, Some(&10))));
    assert_eq!(seen(e.next()), Some((11, Some(&11))));
    assert_eq!(seen(e.next()), Some((12, None)));

    assert_eq!(seen(e.seek(11)), Some((11, Some(&11))));
    assert_eq!(seen(e.next()), Some((12, None)));

    assert_eq!(seen(e.seek(12)), Some((12, None)));
    assert_eq!(seen(e.next()), Some((13, Some(&13))));

    assert_eq!(seen(e.seek(11)), Some((11, Some(&11))));
    assert_eq!(seen(e.next()), Some((12, None)));
    assert_eq!(seen(e.next()), Some((13, Some(&13))));

    assert_eq!(e.seek(16), None);
    assert_eq!(seen(e.next()), Some((19, None)));

    assert_eq!(seen(e.seek(19)), Some((19, None)));
    assert_eq!(seen(e.next()), Some((20, Some(&120))));

    assert_eq!(seen(e.seek(20)), Some((20, Some(&120))));

    assert_eq!(seen(e.seek(21)), Some((21, None)));
    assert_eq!(seen(e.next()), Some((29, None)));
    assert_eq!(seen(e.next()), Some((30, Some(&130))));

    assert_eq!(seen(e.seek(30)), Some((30, Some(&130))));
    assert_eq!(seen(e.next()), Some((31, None)));

    assert_eq!(seen(e.seek(31)), Some((31, None)));
    assert_eq!(seen(e.next()), None);

    assert_eq!(seen(e.seek(31)), Some((31, None)));
    assert_eq!(seen(e.next()), None);

    assert_eq!(seen(e.seek(100)), None);

    assert_eq!(seen(e.seek(12)), Some((12, None)));
    assert_eq!(seen(e.next()), Some((13, Some(&13))));
}
