use crate::neighbourhood::{lookup, near, slot_matches};
use crate::span::{in_range, Span};
use std::cmp::Ordering;
use vstd::prelude::*;

verus! {

/// Each span is well formed, and spans are ordered with at least one free
/// index between any two of them.
pub open spec fn spans_wf<T>(s: Seq<Span<T>>) -> bool {
    &&& forall|u: int| 0 <= u < s.len() ==> (#[trigger] s[u]).wf()
    &&& forall|u: int, v: int| 0 <= u < v < s.len() ==> (#[trigger] s[u]).end() < (#[trigger] s[v]).start()
}

/// Whether some span of `s` covers `i`.
pub open spec fn spans_cover<T>(s: Seq<Span<T>>, i: int) -> bool {
    exists|u: int| 0 <= u < s.len() && (#[trigger] s[u]).covers(i)
}

/// The points held by a list of spans.
pub open spec fn spans_map<T>(s: Seq<Span<T>>) -> Map<int, T> {
    Map::new(
        |i: int| spans_cover(s, i),
        |i: int|
            {
                let u = choose|u: int| 0 <= u < s.len() && (#[trigger] s[u]).covers(i);
                s[u].at(i)
            },
    )
}

/// In well formed spans, the span that covers `i` gives the point at `i`.
pub proof fn lemma_spans_map_at<T>(s: Seq<Span<T>>, u: int, i: int)
    requires
        spans_wf(s),
        0 <= u < s.len(),
        s[u].covers(i),
    ensures
        spans_map(s).contains_key(i),
        spans_map(s)[i] == s[u].at(i),
{
    let v = choose|v: int| 0 <= v < s.len() && (#[trigger] s[v]).covers(i);
    assert(0 <= v < s.len() && s[v].covers(i));
    if v < u {
        assert(s[v].end() < s[u].start());
    } else if u < v {
        assert(s[u].end() < s[v].start());
    }
}

/// An index between span `u - 1` and span `u`, touching neither, is not stored.
pub proof fn lemma_gap<T>(s: Seq<Span<T>>, u: int, k: int)
    requires
        spans_wf(s),
        0 <= u <= s.len(),
        u == 0 || s[u - 1].end() <= k,
        u == s.len() || k < s[u].start(),
    ensures
        !spans_map(s).contains_key(k),
        lookup(spans_map(s), k) == None::<T>,
{
    if spans_cover(s, k) {
        let v = choose|v: int| 0 <= v < s.len() && (#[trigger] s[v]).covers(k);
        if v < u - 1 {
            assert(s[v].end() < s[u - 1].start());
        } else if v > u {
            assert(s[u].end() < s[v].start());
        }
    }
}

/// Being near a stored index, seen on the map and on the spans.
pub proof fn lemma_near<T>(s: Seq<Span<T>>)
    requires
        spans_wf(s),
    ensures
        forall|k: int| #[trigger] near(spans_map(s), k) == spans_near(s, k),
{
    assert forall|k: int| #[trigger] near(spans_map(s), k) == spans_near(s, k) by {
        if near(spans_map(s), k) {
            if spans_cover(s, k - 1) {
                let v = choose|v: int| 0 <= v < s.len() && (#[trigger] s[v]).covers(k - 1);
                assert(s[v].start() - 1 <= k <= s[v].end());
            } else if spans_cover(s, k) {
                let v = choose|v: int| 0 <= v < s.len() && (#[trigger] s[v]).covers(k);
                assert(s[v].start() - 1 <= k <= s[v].end());
            } else {
                let v = choose|v: int| 0 <= v < s.len() && (#[trigger] s[v]).covers(k + 1);
                assert(s[v].start() - 1 <= k <= s[v].end());
            }
        }
        if spans_near(s, k) {
            let v = choose|v: int| 0 <= v < s.len() && (#[trigger] s[v]).start() - 1 <= k <= s[v].end();
            assert(s[v].wf());
            if k == s[v].start() - 1 {
                assert(s[v].covers(k + 1));
            } else if k == s[v].end() {
                assert(s[v].covers(k - 1));
            } else {
                assert(s[v].covers(k));
            }
        }
    }
}

/// Nothing lies near an index past the end of the last span.
pub proof fn lemma_past_end<T>(s: Seq<Span<T>>, k: int)
    requires
        spans_wf(s),
        s.len() >= 1,
        k > s[s.len() - 1].end(),
    ensures
        !spans_near(s, k),
{
    if spans_near(s, k) {
        let w = choose|w: int| 0 <= w < s.len() && (#[trigger] s[w]).start() - 1 <= k <= s[w].end();
        if w < s.len() - 1 {
            assert(s[w].end() < s[s.len() - 1].start());
        }
    }
}

/// Whether two span lists have the same origins and the same items.
pub open spec fn same_spans<T>(s1: Seq<Span<T>>, s2: Seq<Span<T>>) -> bool {
    &&& s1.len() == s2.len()
    &&& forall|u: int| 0 <= u < s1.len() ==> (#[trigger] s1[u]).origin == s2[u].origin && s1[u].items@ == s2[u].items@
}

/// Well formed spans hold their first span's points and then the rest's.
proof fn lemma_tail_map<T>(s: Seq<Span<T>>)
    requires
        spans_wf(s),
        s.len() > 0,
    ensures
        spans_wf(s.drop_first()),
        forall|k: int| #[trigger] spans_map(s.drop_first()).contains_key(k) <==> (spans_map(s).contains_key(k) && k >= s[0].end()),
        forall|k: int| #[trigger] spans_map(s.drop_first()).contains_key(k) ==> spans_map(s.drop_first())[k] == spans_map(s)[k],
{
    let t = s.drop_first();
    assert forall|u: int| 0 <= u < t.len() implies (#[trigger] t[u]).wf() by {
        assert(t[u] == s[u + 1]);
    }
    assert forall|u: int, v: int| 0 <= u < v < t.len() implies (#[trigger] t[u]).end() < (#[trigger] t[v]).start() by {
        assert(s[u + 1].end() < s[v + 1].start());
    }
    assert forall|k: int| #[trigger] spans_map(t).contains_key(k) <==> (spans_map(s).contains_key(k) && k >= s[0].end()) by {
        if spans_cover(t, k) {
            let v = choose|v: int| 0 <= v < t.len() && (#[trigger] t[v]).covers(k);
            assert(s[v + 1].covers(k));
            assert(s[0].end() < s[v + 1].start());
        }
        if spans_cover(s, k) && k >= s[0].end() {
            let v = choose|v: int| 0 <= v < s.len() && (#[trigger] s[v]).covers(k);
            assert(v != 0);
            assert(t[v - 1].covers(k));
        }
    }
    assert forall|k: int| #[trigger] spans_map(t).contains_key(k) implies spans_map(t)[k] == spans_map(s)[k] by {
        let v = choose|v: int| 0 <= v < t.len() && (#[trigger] t[v]).covers(k);
        lemma_spans_map_at(t, v, k);
        lemma_spans_map_at(s, v + 1, k);
    }
}

/// Well formed span lists that hold the same points are the same lists.
pub proof fn lemma_spans_determined<T>(s1: Seq<Span<T>>, s2: Seq<Span<T>>)
    requires
        spans_wf(s1),
        spans_wf(s2),
        spans_map(s1) == spans_map(s2),
    ensures
        same_spans(s1, s2),
    decreases s1.len(),
{
    let m = spans_map(s1);
    if s1.len() == 0 || s2.len() == 0 {
        if s1.len() > 0 {
            assert(s1[0].wf());
            lemma_spans_map_at(s1, 0, s1[0].start());
        }
        if s2.len() > 0 {
            assert(s2[0].wf());
            lemma_spans_map_at(s2, 0, s2[0].start());
        }
        return;
    }
    let a = s1[0];
    let b = s2[0];
    assert(a.wf() && b.wf());
    // the first spans start at the lowest point
    lemma_spans_map_at(s1, 0, a.start());
    lemma_spans_map_at(s2, 0, b.start());
    let va = choose|v: int| 0 <= v < s2.len() && (#[trigger] s2[v]).covers(a.start());
    if va > 0 {
        assert(s2[0].end() < s2[va].start());
    }
    let vb = choose|v: int| 0 <= v < s1.len() && (#[trigger] s1[v]).covers(b.start());
    if vb > 0 {
        assert(s1[0].end() < s1[vb].start());
    }
    assert(a.start() == b.start());
    // and end where the first gap is
    if a.end() < b.end() {
        lemma_spans_map_at(s2, 0, a.end());
        let v = choose|v: int| 0 <= v < s1.len() && (#[trigger] s1[v]).covers(a.end());
        if v > 0 {
            assert(s1[0].end() < s1[v].start());
        }
    }
    if b.end() < a.end() {
        lemma_spans_map_at(s1, 0, b.end());
        let v = choose|v: int| 0 <= v < s2.len() && (#[trigger] s2[v]).covers(b.end());
        if v > 0 {
            assert(s2[0].end() < s2[v].start());
        }
    }
    assert(a.end() == b.end());
    assert forall|j: int| 0 <= j < a.items@.len() implies a.items@[j] == b.items@[j] by {
        lemma_spans_map_at(s1, 0, a.start() + j);
        lemma_spans_map_at(s2, 0, a.start() + j);
    }
    assert(a.items@ =~= b.items@);
    lemma_tail_map(s1);
    lemma_tail_map(s2);
    assert(spans_map(s1.drop_first()) =~= spans_map(s2.drop_first()));
    lemma_spans_determined(s1.drop_first(), s2.drop_first());
    assert forall|u: int| 0 <= u < s1.len() implies (#[trigger] s1[u]).origin == s2[u].origin && s1[u].items@ == s2[u].items@ by {
        if u > 0 {
            assert(s1.drop_first()[u - 1] == s1[u]);
            assert(s2.drop_first()[u - 1] == s2[u]);
        }
    }
}

/// No index is written twice in `p`.
pub open spec fn distinct_keys<T>(p: Seq<(i64, T)>) -> bool {
    forall|j1: int, j2: int| 0 <= j1 < j2 < p.len() ==> (#[trigger] p[j1]).0 != (#[trigger] p[j2]).0
}

/// With no index written twice, each written point stays as written.
proof fn lemma_points_map_distinct<T>(p: Seq<(i64, T)>)
    requires
        distinct_keys(p),
    ensures
        forall|k: int| #[trigger] points_map(p).contains_key(k) <==> exists|j: int| 0 <= j < p.len() && (#[trigger] p[j]).0 == k,
        forall|j: int| 0 <= j < p.len() ==> points_map(p)[(#[trigger] p[j]).0 as int] == p[j].1,
    decreases p.len(),
{
    if p.len() > 0 {
        let q = p.drop_last();
        assert forall|j1: int, j2: int| 0 <= j1 < j2 < q.len() implies (#[trigger] q[j1]).0 != (#[trigger] q[j2]).0 by {
            assert(q[j1] == p[j1] && q[j2] == p[j2]);
        }
        lemma_points_map_distinct(q);
        assert forall|k: int| #[trigger] points_map(p).contains_key(k) <==> exists|j: int| 0 <= j < p.len() && (#[trigger] p[j]).0 == k by {
            if points_map(q).contains_key(k) {
                let j = choose|j: int| 0 <= j < q.len() && (#[trigger] q[j]).0 == k;
                assert(p[j] == q[j]);
            }
            if exists|j: int| 0 <= j < p.len() && (#[trigger] p[j]).0 == k {
                let j = choose|j: int| 0 <= j < p.len() && (#[trigger] p[j]).0 == k;
                if j < p.len() - 1 {
                    assert(q[j] == p[j]);
                }
            }
        }
        assert forall|j: int| 0 <= j < p.len() implies points_map(p)[(#[trigger] p[j]).0 as int] == p[j].1 by {
            if j < p.len() - 1 {
                assert(q[j] == p[j]);
                assert(p[j].0 != p[p.len() - 1].0);
            }
        }
    }
}

/// What `new` and `set` leave is what writing their points in order leaves:
/// one point gives the one-point map, and each further write adds its point
/// on top. So a contig made by `new(p[0])` and then `set(p[k])` for each
/// later `k` holds `points_map(p)`.
pub proof fn lemma_written_points<T>(p: Seq<(i64, T)>, i: i64, item: T)
    ensures
        points_map(seq![(i, item)]) == map![i as int => item],
        points_map(p.push((i, item))) == points_map(p).insert(i as int, item),
{
    assert(seq![(i, item)].drop_last() =~= Seq::<(i64, T)>::empty());
    assert(points_map(Seq::<(i64, T)>::empty()) =~= Map::<int, T>::empty());
    assert(points_map(seq![(i, item)]) =~= map![i as int => item]);
    assert(p.push((i, item)).drop_last() =~= p);
}

/// Writing the same points in any order leaves the same spans: contigs
/// that hold what two orderings of one set of distinct points leave behind
/// have equal origins, lengths and items, span by span. `Contig::from`
/// gives exactly such contigs, as does `new` followed by `set` (see
/// `lemma_written_points`).
pub proof fn lemma_write_order_irrelevant<T>(p1: Seq<(i64, T)>, p2: Seq<(i64, T)>, c1: Contig<T>, c2: Contig<T>)
    requires
        distinct_keys(p1),
        distinct_keys(p2),
        forall|x: (i64, T)| p1.contains(x) <==> p2.contains(x),
        c1.wf(),
        c2.wf(),
        c1@ == points_map(p1),
        c2@ == points_map(p2),
    ensures
        same_spans(c1.spans@, c2.spans@),
{
    lemma_points_map_distinct(p1);
    lemma_points_map_distinct(p2);
    assert forall|k: int| #[trigger] points_map(p1).contains_key(k) implies points_map(p2).contains_key(k)
        && points_map(p1)[k] == points_map(p2)[k] by {
        let j = choose|j: int| 0 <= j < p1.len() && (#[trigger] p1[j]).0 == k;
        assert(p1.contains(p1[j]));
        assert(p2.contains(p1[j]));
        let j2 = choose|j2: int| 0 <= j2 < p2.len() && p2[j2] == p1[j];
        assert(p2[j2].0 == k);
    }
    assert forall|k: int| #[trigger] points_map(p2).contains_key(k) implies points_map(p1).contains_key(k) by {
        let j = choose|j: int| 0 <= j < p2.len() && (#[trigger] p2[j]).0 == k;
        assert(p2.contains(p2[j]));
        assert(p1.contains(p2[j]));
        let j1 = choose|j1: int| 0 <= j1 < p1.len() && p1[j1] == p2[j];
        assert(p1[j1].0 == k);
    }
    assert(points_map(p1) =~= points_map(p2));
    lemma_spans_determined(c1.spans@, c2.spans@);
}

/// No two spans ever touch: the last index of each span lies more than one
/// step before the next span's origin, and the index just past each span is
/// free.
pub proof fn lemma_no_false_adjacency<T>(c: Contig<T>)
    requires
        c.wf(),
    ensures
        forall|u: int| 0 <= u < c.spans@.len() - 1 ==> (#[trigger] c.spans@[u]).end() - 1 < c.spans@[u + 1].start() - 1,
        forall|u: int| 0 <= u < c.spans@.len() ==> !c@.contains_key((#[trigger] c.spans@[u]).end()),
{
    assert forall|u: int| 0 <= u < c.spans@.len() - 1 implies (#[trigger] c.spans@[u]).end() - 1 < c.spans@[u + 1].start() - 1 by {
        assert(c.spans@[u].end() < c.spans@[u + 1].start());
    }
    assert forall|u: int| 0 <= u < c.spans@.len() implies !c@.contains_key((#[trigger] c.spans@[u]).end()) by {
        if u + 1 < c.spans@.len() {
            assert(c.spans@[u].end() < c.spans@[u + 1].start());
        }
        lemma_gap(c.spans@, u + 1, c.spans@[u].end());
    }
}

/// Every point of well formed spans lies in the storable range, so every
/// index near one lies at most one step outside it.
pub proof fn lemma_near_in_range<T>(s: Seq<Span<T>>)
    requires
        spans_wf(s),
    ensures
        forall|k: int| #[trigger] spans_map(s).contains_key(k) ==> in_range(k),
        forall|k: int| #[trigger] near(spans_map(s), k) ==> crate::span::MIN_INDEX - 1 <= k <= crate::span::MAX_INDEX + 1,
{
    assert forall|k: int| #[trigger] spans_map(s).contains_key(k) implies in_range(k) by {
        let u = choose|u: int| 0 <= u < s.len() && (#[trigger] s[u]).covers(k);
        assert(s[u].wf());
    }
}

/// Pointwise agreement of two point maps, except at `i` where the second holds `item`.
proof fn lemma_map_insert<T>(s: Seq<Span<T>>, s2: Seq<Span<T>>, i: int, item: T)
    requires
        forall|k: int| k != i ==> (spans_cover(s2, k) <==> spans_cover(s, k)),
        spans_cover(s2, i),
        spans_map(s2)[i] == item,
        forall|k: int|
            k != i && spans_cover(s, k) ==> #[trigger] spans_map(s2)[k] == spans_map(s)[k],
    ensures
        spans_map(s2) == spans_map(s).insert(i, item),
{
    assert forall|k: int| #[trigger] spans_map(s2).contains_key(k) == spans_map(s).insert(i, item).contains_key(k) by {
        if k != i {
            assert(spans_cover(s2, k) <==> spans_cover(s, k));
        }
    }
    assert(spans_map(s2) =~= spans_map(s).insert(i, item));
}

/// Overwriting a covered index in place.
proof fn lemma_overwrite<T>(s: Seq<Span<T>>, s2: Seq<Span<T>>, u: int, i: int, item: T)
    requires
        spans_wf(s),
        0 <= u < s.len(),
        s[u].covers(i),
        s2.len() == s.len(),
        forall|v: int| 0 <= v < s.len() && v != u ==> s2[v] == s[v],
        s2[u].origin == s[u].origin,
        s2[u].items@ == s[u].items@.update(i - s[u].origin, item),
    ensures
        spans_wf(s2),
        spans_map(s2) == spans_map(s).insert(i, item),
{
    assert forall|v: int| 0 <= v < s.len() implies (#[trigger] s2[v]).start() == s[v].start()
        && s2[v].end() == s[v].end() by {}
    lemma_spans_map_at(s2, u, i);
    assert forall|k: int| spans_cover(s, k) implies spans_cover(s2, k) by {
        let v = choose|v: int| 0 <= v < s.len() && (#[trigger] s[v]).covers(k);
        assert(s2[v].covers(k));
    }
    assert forall|k: int| spans_cover(s2, k) implies spans_cover(s, k) by {
        let v = choose|v: int| 0 <= v < s2.len() && (#[trigger] s2[v]).covers(k);
        assert(s[v].covers(k));
    }
    assert forall|k: int| k != i && spans_cover(s, k) implies #[trigger] spans_map(s2)[k] == spans_map(s)[k] by {
        let v = choose|v: int| 0 <= v < s.len() && (#[trigger] s[v]).covers(k);
        lemma_spans_map_at(s, v, k);
        lemma_spans_map_at(s2, v, k);
    }
    lemma_map_insert(s, s2, i, item);
}

/// Overwriting a covered index in place, whatever the new item.
proof fn lemma_overwrite_any<T>(s: Seq<Span<T>>, u: int, i: int)
    requires
        spans_wf(s),
        0 <= u < s.len(),
        s[u].covers(i),
    ensures
        forall|sp: Span<T>|
            sp.origin == s[u].origin && sp.items@ == s[u].items@.update(i - s[u].origin, sp.at(i))
                ==> spans_wf(#[trigger] s.update(u, sp)) && spans_map(s.update(u, sp)) == spans_map(s).insert(i, sp.at(i)),
{
    assert forall|sp: Span<T>|
        sp.origin == s[u].origin && sp.items@ == s[u].items@.update(i - s[u].origin, sp.at(i))
            implies spans_wf(#[trigger] s.update(u, sp)) && spans_map(s.update(u, sp)) == spans_map(s).insert(i, sp.at(i)) by {
        lemma_overwrite(s, s.update(u, sp), u, i, sp.at(i));
    }
}

/// Extending a span by one item at its left edge.
proof fn lemma_push_front<T>(s: Seq<Span<T>>, s2: Seq<Span<T>>, u: int, i: int, item: T)
    requires
        spans_wf(s),
        0 <= u < s.len(),
        i == s[u].start() - 1,
        in_range(i),
        u == 0 || s[u - 1].end() < i,
        s2.len() == s.len(),
        forall|v: int| 0 <= v < s.len() && v != u ==> s2[v] == s[v],
        s2[u].origin == i,
        s2[u].items@ == seq![item] + s[u].items@,
    ensures
        spans_wf(s2),
        spans_map(s2) == spans_map(s).insert(i, item),
{
    assert forall|v: int| 0 <= v < s2.len() implies (#[trigger] s2[v]).wf() by {
        if v != u {
            assert(s[v].wf());
        } else {
            assert(s[u].wf());
        }
    }
    assert forall|v: int, w: int| 0 <= v < w < s2.len() implies (#[trigger] s2[v]).end() < (#[trigger] s2[w]).start() by {
        assert(s[v].end() < s[w].start());
        if w == u && v < u - 1 {
            assert(s[v].end() < s[u - 1].start());
        }
    }
    assert(s2[u].at(i) == item);
    lemma_spans_map_at(s2, u, i);
    assert forall|k: int| k != i implies (spans_cover(s2, k) <==> spans_cover(s, k)) by {
        if spans_cover(s, k) {
            let v = choose|v: int| 0 <= v < s.len() && (#[trigger] s[v]).covers(k);
            assert(s2[v].covers(k));
        }
        if spans_cover(s2, k) {
            let v = choose|v: int| 0 <= v < s2.len() && (#[trigger] s2[v]).covers(k);
            assert(s[v].covers(k));
        }
    }
    assert forall|k: int| k != i && spans_cover(s, k) implies #[trigger] spans_map(s2)[k] == spans_map(s)[k] by {
        let v = choose|v: int| 0 <= v < s.len() && (#[trigger] s[v]).covers(k);
        lemma_spans_map_at(s, v, k);
        assert(s2[v].covers(k));
        if v == u {
            assert(s2[u].at(k) == s[u].at(k));
        }
        lemma_spans_map_at(s2, v, k);
    }
    lemma_map_insert(s, s2, i, item);
}

/// Extending a span by one item at its right edge.
proof fn lemma_push_back<T>(s: Seq<Span<T>>, s2: Seq<Span<T>>, u: int, i: int, item: T)
    requires
        spans_wf(s),
        0 <= u < s.len(),
        i == s[u].end(),
        in_range(i),
        u + 1 == s.len() || i + 1 < s[u + 1].start(),
        s2.len() == s.len(),
        forall|v: int| 0 <= v < s.len() && v != u ==> s2[v] == s[v],
        s2[u].origin == s[u].origin,
        s2[u].items@ == s[u].items@.push(item),
    ensures
        spans_wf(s2),
        spans_map(s2) == spans_map(s).insert(i, item),
{
    assert forall|v: int| 0 <= v < s2.len() implies (#[trigger] s2[v]).wf() by {
        assert(s[v].wf());
    }
    assert forall|v: int, w: int| 0 <= v < w < s2.len() implies (#[trigger] s2[v]).end() < (#[trigger] s2[w]).start() by {
        assert(s[v].end() < s[w].start());
        if v == u && w > u + 1 {
            assert(s[u + 1].end() < s[w].start());
        }
    }
    assert(s2[u].at(i) == item);
    lemma_spans_map_at(s2, u, i);
    assert forall|k: int| k != i implies (spans_cover(s2, k) <==> spans_cover(s, k)) by {
        if spans_cover(s, k) {
            let v = choose|v: int| 0 <= v < s.len() && (#[trigger] s[v]).covers(k);
            assert(s2[v].covers(k));
        }
        if spans_cover(s2, k) {
            let v = choose|v: int| 0 <= v < s2.len() && (#[trigger] s2[v]).covers(k);
            assert(s[v].covers(k));
        }
    }
    assert forall|k: int| k != i && spans_cover(s, k) implies #[trigger] spans_map(s2)[k] == spans_map(s)[k] by {
        let v = choose|v: int| 0 <= v < s.len() && (#[trigger] s[v]).covers(k);
        lemma_spans_map_at(s, v, k);
        assert(s2[v].covers(k));
        if v == u {
            assert(s2[u].at(k) == s[u].at(k));
        }
        lemma_spans_map_at(s2, v, k);
    }
    lemma_map_insert(s, s2, i, item);
}

/// Placing a new one-item span between two spans that stay apart from `i`.
proof fn lemma_insert<T>(s: Seq<Span<T>>, u: int, i: int, item: T, sp: Span<T>)
    requires
        spans_wf(s),
        0 <= u <= s.len(),
        in_range(i),
        u == 0 || s[u - 1].end() < i,
        u == s.len() || i + 1 < s[u].start(),
        sp.origin == i,
        sp.items@ == seq![item],
    ensures
        spans_wf(s.insert(u, sp)),
        spans_map(s.insert(u, sp)) == spans_map(s).insert(i, item),
{
    let s2 = s.insert(u, sp);
    assert forall|v: int| 0 <= v < s2.len() implies (#[trigger] s2[v]).wf() by {
        if v < u {
            assert(s[v].wf());
        } else if v > u {
            assert(s[v - 1].wf());
        }
    }
    assert forall|v: int, w: int| 0 <= v < w < s2.len() implies (#[trigger] s2[v]).end() < (#[trigger] s2[w]).start() by {
        if w < u {
            assert(s[v].end() < s[w].start());
        } else if w == u {
            if v < u - 1 {
                assert(s[v].end() < s[u - 1].start());
            }
        } else if v < u {
            assert(s[v].end() < s[w - 1].start());
        } else if v == u {
            if w > u + 1 {
                assert(s[u].end() < s[w - 1].start());
            }
        } else {
            assert(s[v - 1].end() < s[w - 1].start());
        }
    }
    assert(s2[u].at(i) == item);
    lemma_spans_map_at(s2, u, i);
    assert forall|k: int| k != i implies (spans_cover(s2, k) <==> spans_cover(s, k)) by {
        if spans_cover(s, k) {
            let v = choose|v: int| 0 <= v < s.len() && (#[trigger] s[v]).covers(k);
            if v < u {
                assert(s2[v].covers(k));
            } else {
                assert(s2[v + 1].covers(k));
            }
        }
        if spans_cover(s2, k) {
            let v = choose|v: int| 0 <= v < s2.len() && (#[trigger] s2[v]).covers(k);
            if v < u {
                assert(s[v].covers(k));
            } else if v > u {
                assert(s[v - 1].covers(k));
            }
        }
    }
    assert forall|k: int| k != i && spans_cover(s, k) implies #[trigger] spans_map(s2)[k] == spans_map(s)[k] by {
        let v = choose|v: int| 0 <= v < s.len() && (#[trigger] s[v]).covers(k);
        lemma_spans_map_at(s, v, k);
        if v < u {
            lemma_spans_map_at(s2, v, k);
        } else {
            lemma_spans_map_at(s2, v + 1, k);
        }
    }
    lemma_map_insert(s, s2, i, item);
}

/// Filling the single free index between two spans merges them.
proof fn lemma_coalesce<T>(s: Seq<Span<T>>, s2: Seq<Span<T>>, u: int, i: int, item: T)
    requires
        spans_wf(s),
        0 < u < s.len(),
        i == s[u].start() - 1,
        i == s[u - 1].end(),
        s2.len() == s.len() - 1,
        forall|v: int| 0 <= v < u - 1 ==> s2[v] == s[v],
        forall|v: int| u <= v < s2.len() ==> s2[v] == s[v + 1],
        s2[u - 1].origin == s[u - 1].origin,
        s2[u - 1].items@ == s[u - 1].items@ + (seq![item] + s[u].items@),
    ensures
        spans_wf(s2),
        spans_map(s2) == spans_map(s).insert(i, item),
{
    let m = s2[u - 1];
    assert(s[u - 1].wf() && s[u].wf());
    assert(m.start() == s[u - 1].start() && m.end() == s[u].end());
    assert forall|v: int| 0 <= v < s2.len() implies (#[trigger] s2[v]).wf() by {
        if v < u - 1 {
            assert(s[v].wf());
        } else if v >= u {
            assert(s[v + 1].wf());
        }
    }
    assert forall|v: int, w: int| 0 <= v < w < s2.len() implies (#[trigger] s2[v]).end() < (#[trigger] s2[w]).start() by {
        if w < u - 1 {
            assert(s[v].end() < s[w].start());
        } else if w == u - 1 {
            assert(s[v].end() < s[u - 1].start());
        } else if v < u - 1 {
            assert(s[v].end() < s[w + 1].start());
        } else if v == u - 1 {
            assert(s[u].end() < s[w + 1].start());
        } else {
            assert(s[v + 1].end() < s[w + 1].start());
        }
    }
    assert(m.at(i) == item);
    lemma_spans_map_at(s2, u - 1, i);
    assert forall|k: int| k != i implies (spans_cover(s2, k) <==> spans_cover(s, k)) by {
        if spans_cover(s, k) {
            let v = choose|v: int| 0 <= v < s.len() && (#[trigger] s[v]).covers(k);
            if v < u - 1 {
                assert(s2[v].covers(k));
            } else if v <= u {
                assert(s2[u - 1].covers(k));
            } else {
                assert(s2[v - 1].covers(k));
            }
        }
        if spans_cover(s2, k) {
            let v = choose|v: int| 0 <= v < s2.len() && (#[trigger] s2[v]).covers(k);
            if v < u - 1 {
                assert(s[v].covers(k));
            } else if v == u - 1 {
                if k < i {
                    assert(s[u - 1].covers(k));
                } else {
                    assert(s[u].covers(k));
                }
            } else {
                assert(s[v + 1].covers(k));
            }
        }
    }
    assert forall|k: int| k != i && spans_cover(s, k) implies #[trigger] spans_map(s2)[k] == spans_map(s)[k] by {
        let v = choose|v: int| 0 <= v < s.len() && (#[trigger] s[v]).covers(k);
        lemma_spans_map_at(s, v, k);
        if v < u - 1 {
            lemma_spans_map_at(s2, v, k);
        } else if v == u - 1 {
            assert(m.at(k) == s[u - 1].at(k));
            lemma_spans_map_at(s2, u - 1, k);
        } else if v == u {
            assert(m.at(k) == s[u].at(k));
            lemma_spans_map_at(s2, u - 1, k);
        } else {
            lemma_spans_map_at(s2, v - 1, k);
        }
    }
    lemma_map_insert(s, s2, i, item);
}

/// The points that writing `s` in order leaves behind.
pub open spec fn points_map<T>(s: Seq<(i64, T)>) -> Map<int, T>
    decreases s.len(),
{
    if s.len() == 0 {
        Map::empty()
    } else {
        points_map(s.drop_last()).insert(s.last().0 as int, s.last().1)
    }
}

/// Whether `k` lies inside some span or just outside one of its edges.
pub open spec fn spans_near<T>(s: Seq<Span<T>>, k: int) -> bool {
    exists|u: int| 0 <= u < s.len() && (#[trigger] s[u]).start() - 1 <= k <= s[u].end()
}

/// The outcome of classifying a write.
enum ContigUpdate {
    Overwrite(usize),
    PushFront(usize),
    PushFrontAndCoelesce(usize),
    PushBack(usize),
    Insert(usize),
}

/// An ordered list of spans, coalesced whenever a write makes two of them touch.
#[derive(Debug, PartialEq, Eq)]
pub struct Contig<T> {
    pub spans: Vec<Span<T>>,
}

impl<T> View for Contig<T> {
    type V = Map<int, T>;

    open spec fn view(&self) -> Map<int, T> {
        spans_map(self.spans@)
    }
}

impl<T> Contig<T> {
    /// Non-empty, with well formed spans.
    pub open spec fn wf(&self) -> bool {
        &&& self.spans@.len() >= 1
        &&& spans_wf(self.spans@)
    }

    /// Whether (`u`, `i`) is a valid enumeration position: past the last span,
    /// or at an index of span `u` or adjoining it, an index in a gap of one
    /// counting as the right span's.
    pub open spec fn cursor_ok(&self, u: int, i: int) -> bool {
        let s = self.spans@;
        &&& 0 <= u <= s.len()
        &&& u < s.len() ==> {
            &&& s[u].start() - 1 <= i <= s[u].end()
            &&& (i == s[u].end() && u + 1 < s.len()) ==> i < s[u + 1].start() - 1
        }
        &&& u == s.len() ==> i > s[s.len() - 1].end()
    }

    /// A contig holding one item.
    pub fn new(i: i64, item: T) -> (r: Contig<T>)
        requires
            in_range(i as int),
        ensures
            r.wf(),
            r@ == map![i as int => item],
    {
        let s = Span::new(i, item);
        let mut spans = Vec::new();
        spans.push(s);
        let r = Contig { spans };
        proof {
            lemma_spans_map_at(r.spans@, 0, i as int);
            assert(r@ =~= map![i as int => item]);
        }
        r
    }

    /// Lowest stored index.
    pub fn origin(&self) -> (r: i64)
        requires
            self.wf(),
        ensures
            self@.contains_key(r as int),
            forall|k: int| #[trigger] self@.contains_key(k) ==> r <= k,
    {
        proof {
            lemma_spans_map_at(self.spans@, 0, self.spans@[0].start());
            assert forall|k: int| #[trigger] self@.contains_key(k) implies self.spans@[0].start() <= k by {
                let u = choose|u: int| 0 <= u < self.spans@.len() && (#[trigger] self.spans@[u]).covers(k);
                if u > 0 {
                    assert(self.spans@[0].end() < self.spans@[u].start());
                }
            }
        }
        self.spans[0].origin
    }

    /// Binary search for the span that covers `i` (with its two adjoining
    /// indices counted in when `adjacent`), or for where `i` would go.
    fn search(&self, i: i64, adjacent: bool) -> (r: Result<usize, usize>)
        requires
            spans_wf(self.spans@),
        ensures
            ({
                let a: int = if adjacent { 1 } else { 0 };
                let s = self.spans@;
                match r {
                    Ok(u) => u < s.len() && s[u as int].start() - a <= i < s[u as int].end() + a,
                    Err(u) => {
                        &&& u <= s.len()
                        &&& forall|v: int| 0 <= v < u ==> (#[trigger] s[v]).end() + a <= i
                        &&& forall|v: int| u <= v < s.len() ==> i < (#[trigger] s[v]).start() - a
                    },
                }
            }),
    {
        let ghost a: int = if adjacent { 1 } else { 0 };
        let mut lo: usize = 0;
        let mut hi: usize = self.spans.len();
        while lo < hi
            invariant
                spans_wf(self.spans@),
                a == if adjacent { 1int } else { 0int },
                lo <= hi <= self.spans@.len(),
                forall|v: int| 0 <= v < lo ==> (#[trigger] self.spans@[v]).end() + a <= i,
                forall|v: int| hi <= v < self.spans@.len() ==> i < (#[trigger] self.spans@[v]).start() - a,
            decreases hi - lo,
        {
            let mid = lo + (hi - lo) / 2;
            let o = if adjacent {
                self.spans[mid].cmp_with_adjacent(&i)
            } else {
                self.spans[mid].cmp(&i)
            };
            match o {
                Ordering::Equal => {
                    return Ok(mid);
                },
                Ordering::Less => {
                    assert forall|v: int| 0 <= v < mid + 1 implies (#[trigger] self.spans@[v]).end() + a <= i by {
                        if v < mid {
                            assert(self.spans@[v].end() < self.spans@[mid as int].start());
                        }
                    }
                    lo = mid + 1;
                },
                Ordering::Greater => {
                    assert forall|v: int| mid <= v < self.spans@.len() implies i < (#[trigger] self.spans@[v]).start() - a by {
                        if v > mid {
                            assert(self.spans@[mid as int].end() < self.spans@[v].start());
                        }
                    }
                    hi = mid;
                },
            }
        }
        Err(lo)
    }

    /// The item at `i`, if stored.
    pub fn get(&self, i: i64) -> (r: Option<&T>)
        requires
            self.wf(),
        ensures
            slot_matches(r, crate::neighbourhood::lookup(self@, i as int)),
    {
        match self.search(i, false) {
            Ok(u) => {
                proof {
                    lemma_spans_map_at(self.spans@, u as int, i as int);
                }
                self.spans[u].get(i)
            },
            Err(u) => {
                proof {
                    lemma_gap(self.spans@, u as int, i as int);
                }
                None
            },
        }
    }

    /// Classifies a write to `i` into one of five updates.
    fn determine_update(&self, i: i64) -> (r: ContigUpdate)
        requires
            self.wf(),
        ensures
            ({
                let s = self.spans@;
                match r {
                    ContigUpdate::Overwrite(u) => u < s.len() && s[u as int].covers(i as int),
                    ContigUpdate::PushFront(u) => {
                        &&& u < s.len()
                        &&& i == s[u as int].start() - 1
                        &&& (u == 0 || s[u - 1].end() < i)
                    },
                    ContigUpdate::PushFrontAndCoelesce(u) => {
                        &&& 0 < u < s.len()
                        &&& i == s[u as int].start() - 1
                        &&& i == s[u - 1].end()
                    },
                    ContigUpdate::PushBack(u) => {
                        &&& u < s.len()
                        &&& i == s[u as int].end()
                        &&& (u + 1 == s.len() || i + 1 < s[u + 1].start())
                    },
                    ContigUpdate::Insert(u) => {
                        &&& u <= s.len()
                        &&& (u == 0 || s[u - 1].end() < i)
                        &&& (u == s.len() || i + 1 < s[u as int].start())
                    },
                }
            }),
    {
        match self.search(i, false) {
            Ok(u) => ContigUpdate::Overwrite(u),
            Err(u) => {
                let adjoins_next = u < self.spans.len() && self.spans[u].adjoins_left(i);
                let adjoins_prev = u > 0 && self.spans[u - 1].adjoins_right(i);
                if adjoins_next {
                    if adjoins_prev {
                        ContigUpdate::PushFrontAndCoelesce(u)
                    } else {
                        ContigUpdate::PushFront(u)
                    }
                } else if adjoins_prev {
                    ContigUpdate::PushBack(u - 1)
                } else {
                    ContigUpdate::Insert(u)
                }
            },
        }
    }

    /// The span just left of span `u`, if any.
    pub fn get_left_of(&self, u: usize) -> (r: Option<&Span<T>>)
        requires
            u <= self.spans@.len(),
        ensures
            match r {
                Some(sp) => u > 0 && *sp == self.spans@[u - 1],
                None => u == 0,
            },
    {
        if u > 0 {
            Some(&self.spans[u - 1])
        } else {
            None
        }
    }

    /// The item at `i` within the span just left of span `u`, if any.
    pub fn get_in_left(&self, u: usize, i: i64) -> (r: Option<&T>)
        requires
            u <= self.spans@.len(),
        ensures
            slot_matches(r, if u > 0 { self.spans@[u - 1].lookup(i as int) } else { None }),
    {
        if u > 0 {
            self.spans[u - 1].get(i)
        } else {
            None
        }
    }

    /// A mutable reference to the item at `i`, if stored.
    pub fn get_mut(&mut self, i: i64) -> (r: Option<&mut T>)
        requires
            old(self).wf(),
        ensures
            final(self).wf(),
            match r {
                Some(x) => {
                    &&& old(self)@.contains_key(i as int)
                    &&& *x == old(self)@[i as int]
                    &&& final(self)@ == old(self)@.insert(i as int, *final(x))
                },
                None => !old(self)@.contains_key(i as int) && final(self)@ == old(self)@,
            },
    {
        match self.search(i, false) {
            Ok(u) => {
                proof {
                    lemma_spans_map_at(self.spans@, u as int, i as int);
                    lemma_overwrite_any(self.spans@, u as int, i as int);
                }
                self.spans[u].get_mut(i)
            },
            Err(u) => {
                proof {
                    lemma_gap(self.spans@, u as int, i as int);
                }
                None
            },
        }
    }

    /// Stores `item` at `i`, extending, merging or adding spans so that no two
    /// spans touch.
    pub fn set(&mut self, i: i64, item: T)
        requires
            old(self).wf(),
            in_range(i as int),
        ensures
            final(self).wf(),
            final(self)@ == old(self)@.insert(i as int, item),
    {
        let ghost s = self.spans@;
        match self.determine_update(i) {
            ContigUpdate::Overwrite(u) => {
                self.spans[u].set_at(i, item);
                proof {
                    lemma_overwrite(s, self.spans@, u as int, i as int, item);
                }
            },
            ContigUpdate::PushFront(u) => {
                self.spans[u].push_front(item);
                proof {
                    lemma_push_front(s, self.spans@, u as int, i as int, item);
                }
            },
            ContigUpdate::PushFrontAndCoelesce(u) => {
                self.spans[u].push_front(item);
                self.coelesce_left(u);
                proof {
                    lemma_coalesce(s, self.spans@, u as int, i as int, item);
                }
            },
            ContigUpdate::PushBack(u) => {
                self.spans[u].push_back(item);
                proof {
                    lemma_push_back(s, self.spans@, u as int, i as int, item);
                }
            },
            ContigUpdate::Insert(u) => {
                let sp = Span::new(i, item);
                self.spans.insert(u, sp);
                proof {
                    lemma_insert(s, u as int, i as int, item, sp);
                }
            },
        }
    }

    /// Moves span `u` onto the end of span `u - 1`.
    fn coelesce_left(&mut self, u: usize)
        requires
            0 < u < old(self).spans@.len(),
        ensures
            final(self).spans@.len() == old(self).spans@.len() - 1,
            forall|v: int| 0 <= v < u - 1 ==> final(self).spans@[v] == old(self).spans@[v],
            forall|v: int| u <= v < final(self).spans@.len() ==> final(self).spans@[v] == old(self).spans@[v + 1],
            final(self).spans@[u - 1].origin == old(self).spans@[u - 1].origin,
            final(self).spans@[u - 1].items@ == old(self).spans@[u - 1].items@ + old(self).spans@[u as int].items@,
    {
        let mut removed = self.spans.remove(u);
        self.spans[u - 1].append(&mut removed);
    }

    /// Where a gap of exactly one separates span `u` from the next, `i` at
    /// that gap belongs to the span on the right: gives `u + 1` there, else `u`.
    pub fn normalised(&self, u: usize, i: i64) -> (r: usize)
        requires
            self.wf(),
            u < self.spans@.len(),
        ensures
            r == if u + 1 < self.spans@.len() && i == self.spans@[u + 1].start() - 1 { u + 1 } else { u as int },
    {
        if self.spans.len() - u > 1 && self.spans[u + 1].adjoins_left(i) {
            u + 1
        } else {
            u
        }
    }

    /// The first index at or after `i` that is stored or adjoins a stored
    /// index, with the span it belongs to; `(spans.len(), i)` when there is
    /// none.
    pub fn find_with_adjacent(&self, i: i64) -> (r: (usize, i64))
        requires
            self.wf(),
        ensures
            r.1 >= i,
            self.cursor_ok(r.0 as int, r.1 as int),
            forall|k: int| i <= k < r.1 ==> !spans_near(self.spans@, k),
            r.0 == self.spans@.len() ==> r.1 == i && forall|k: int| k >= i ==> !spans_near(self.spans@, k),
    {
        match self.search(i, true) {
            Ok(u) => {
                let v = self.normalised(u, i);
                proof {
                    if v == u && i == self.spans@[u as int].end() && u + 1 < self.spans@.len() {
                        assert(self.spans@[u as int].end() < self.spans@[u + 1].start());
                    }
                }
                (v, i)
            },
            Err(u) => {
                proof {
                    assert forall|k: int| i <= k < (if u < self.spans@.len() { self.spans@[u as int].start() - 1 } else { i as int }) || (u == self.spans@.len() && k >= i)
                        implies !spans_near(self.spans@, k) by {
                        if spans_near(self.spans@, k) {
                            let w = choose|w: int| 0 <= w < self.spans@.len() && (#[trigger] self.spans@[w]).start() - 1 <= k <= self.spans@[w].end();
                            if w < u {
                            } else if w > u {
                                assert(self.spans@[u as int].end() < self.spans@[w].start());
                            }
                        }
                    }
                    if u < self.spans@.len() && u > 0 {
                        assert(self.spans@[u - 1].end() < self.spans@[u as int].start());
                    }
                }
                if u < self.spans.len() {
                    (u, self.spans[u].origin - 1)
                } else {
                    (u, i)
                }
            },
        }
    }

    /// Builds a contig from points in order, later points overwriting earlier
    /// ones; `None` when there are no points.
    pub fn from(points: Vec<(i64, T)>) -> (r: Option<Contig<T>>)
        requires
            forall|k: int| 0 <= k < points@.len() ==> in_range((#[trigger] points@[k]).0 as int),
        ensures
            match r {
                Some(c) => points@.len() > 0 && c.wf() && c@ == points_map(points@),
                None => points@.len() == 0,
            },
    {
        let mut rest = points;
        if rest.len() == 0 {
            return None;
        }
        let ghost all = rest@;
        let (i0, item0) = rest.remove(0);
        let mut c = Contig::new(i0, item0);
        let ghost mut taken: int = 1;
        proof {
            assert(all.take(1).drop_last() =~= Seq::<(i64, T)>::empty());
            assert(points_map(Seq::<(i64, T)>::empty()) =~= Map::<int, T>::empty());
            assert(c@ =~= points_map(all.take(1)));
        }
        while rest.len() > 0
            invariant
                c.wf(),
                0 < taken <= all.len(),
                rest@ == all.skip(taken),
                c@ == points_map(all.take(taken)),
                forall|k: int| 0 <= k < all.len() ==> in_range((#[trigger] all[k]).0 as int),
            decreases rest@.len(),
        {
            let ghost before = rest@;
            let (i, item) = rest.remove(0);
            proof {
                assert(all[taken] == (i, item));
            }
            c.set(i, item);
            proof {
                assert(all.take(taken + 1).drop_last() =~= all.take(taken));
                taken = taken + 1;
                assert(rest@ =~= all.skip(taken));
            }
        }
        proof {
            assert(all.take(taken) =~= all);
        }
        Some(c)
    }
}

} // verus!
