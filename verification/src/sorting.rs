//! Ordering a list of edges by weight, lightest first, without changing the
//! order among edges of equal weight.

use crate::edge::Edge;
use vstd::prelude::*;

verus! {

/// Whether no edge of the list stands before a lighter one.
pub open spec fn sorted_by_weight(edges: Seq<Edge>) -> bool {
    forall|i: int, j: int| 0 <= i <= j < edges.len() ==> edges[i].weight <= edges[j].weight
}

/// The edges of weight `w`, in the order in which the list has them.
pub open spec fn with_weight(edges: Seq<Edge>, w: i64) -> Seq<Edge>
    decreases edges.len(),
{
    if edges.len() == 0 {
        Seq::empty()
    } else if edges.last().weight == w {
        with_weight(edges.drop_last(), w).push(edges.last())
    } else {
        with_weight(edges.drop_last(), w)
    }
}

/// Whether `sorted` holds the edges of `edges` lightest first, those of each
/// weight as often and in the same order as `edges` has them.
pub open spec fn is_stable_sort_of(sorted: Seq<Edge>, edges: Seq<Edge>) -> bool {
    &&& sorted_by_weight(sorted)
    &&& forall|w: i64| with_weight(sorted, w) == with_weight(edges, w)
}

/// A sorted list with `e` put in behind the edges that are not heavier than `e`.
pub open spec fn insert_by_weight(sorted: Seq<Edge>, e: Edge) -> Seq<Edge>
    decreases sorted.len(),
{
    if sorted.len() == 0 || sorted.last().weight <= e.weight {
        sorted.push(e)
    } else {
        insert_by_weight(sorted.drop_last(), e).push(sorted.last())
    }
}

/// The edges lightest first, those of equal weight in the order in which the
/// list has them: each edge in turn is put into the sorted list of those
/// before it.
pub open spec fn sort_by_weight(edges: Seq<Edge>) -> Seq<Edge>
    decreases edges.len(),
{
    if edges.len() == 0 {
        edges
    } else {
        insert_by_weight(sort_by_weight(edges.drop_last()), edges.last())
    }
}

/// The edges of weight `w` in two lists on end are those of the first list and
/// then those of the second.
pub proof fn lemma_with_weight_concat(a: Seq<Edge>, b: Seq<Edge>, w: i64)
    ensures
        with_weight(a + b, w) == with_weight(a, w) + with_weight(b, w),
    decreases b.len(),
{
    if b.len() == 0 {
        assert(a + b =~= a);
        assert(with_weight(a, w) + with_weight(b, w) =~= with_weight(a, w));
    } else {
        assert((a + b).drop_last() =~= a + b.drop_last());
        assert((a + b).last() == b.last());
        lemma_with_weight_concat(a, b.drop_last(), w);
        if b.last().weight == w {
            let wa = with_weight(a, w);
            let wb = with_weight(b.drop_last(), w);
            assert((wa + wb).push(b.last()) =~= wa + wb.push(b.last()));
        }
    }
}

/// The edges of weight `w` are edges of the list and have weight `w`: none is
/// left out and none is made up.
pub proof fn lemma_with_weight_contains(edges: Seq<Edge>, w: i64, e: Edge)
    ensures
        with_weight(edges, w).contains(e) <==> edges.contains(e) && e.weight == w,
    decreases edges.len(),
{
    if edges.len() > 0 {
        let rest = edges.drop_last();
        let last = edges.last();
        lemma_with_weight_contains(rest, w, e);
        assert(edges =~= rest.push(last));
        assert forall|s: Seq<Edge>, x: Edge| #[trigger]
            s.push(x).contains(e) <==> s.contains(e) || x == e by {
            if s.contains(e) {
                let i = choose|i: int| 0 <= i < s.len() && s[i] == e;
                assert(s.push(x)[i] == e);
            }
            if x == e {
                assert(s.push(x)[s.len() as int] == e);
            }
            if s.push(x).contains(e) {
                let i = choose|i: int| 0 <= i < s.push(x).len() && s.push(x)[i] == e;
                if i < s.len() {
                    assert(s[i] == e);
                }
            }
        }
        assert(rest.push(last).contains(e) <==> rest.contains(e) || last == e);
        if last.weight == w {
            assert(with_weight(rest, w).push(last).contains(e) <==> with_weight(rest, w).contains(e)
                || last == e);
        }
    }
}

/// A list without an edge of weight `w` has no edges of weight `w`.
pub proof fn lemma_with_weight_absent(edges: Seq<Edge>, w: i64)
    requires
        forall|i: int| 0 <= i < edges.len() ==> edges[i].weight != w,
    ensures
        with_weight(edges, w) == Seq::<Edge>::empty(),
    decreases edges.len(),
{
    if edges.len() > 0 {
        lemma_with_weight_absent(edges.drop_last(), w);
    }
}

/// Where a list has edges of weight `w`, one of its places holds such an edge.
pub proof fn lemma_with_weight_present(edges: Seq<Edge>, w: i64) -> (i: int)
    requires
        with_weight(edges, w).len() > 0,
    ensures
        0 <= i < edges.len(),
        edges[i].weight == w,
    decreases edges.len(),
{
    if edges.last().weight == w {
        edges.len() - 1
    } else {
        lemma_with_weight_present(edges.drop_last(), w)
    }
}

/// Putting an edge into a sorted list keeps the list sorted, makes it one edge
/// longer, and puts the edge behind all others of its weight.
pub proof fn lemma_insert_by_weight(sorted: Seq<Edge>, e: Edge)
    requires
        sorted_by_weight(sorted),
    ensures
        sorted_by_weight(insert_by_weight(sorted, e)),
        insert_by_weight(sorted, e).len() == sorted.len() + 1,
        forall|i: int|
            0 <= i < sorted.len() + 1 ==> {
                let x = #[trigger] insert_by_weight(sorted, e)[i];
                x == e || sorted.contains(x)
            },
        forall|w: i64|
            #[trigger] with_weight(insert_by_weight(sorted, e), w) == if e.weight == w {
                with_weight(sorted, w).push(e)
            } else {
                with_weight(sorted, w)
            },
    decreases sorted.len(),
{
    let out = insert_by_weight(sorted, e);
    if sorted.len() == 0 || sorted.last().weight <= e.weight {
        assert(out.drop_last() =~= sorted);
        assert forall|i: int| 0 <= i < sorted.len() + 1 implies ({
            let x = #[trigger] out[i];
            x == e || sorted.contains(x)
        }) by {
            if i < sorted.len() {
                assert(sorted[i] == out[i]);
            }
        }
    } else {
        let rest = sorted.drop_last();
        let last = sorted.last();
        let inner = insert_by_weight(rest, e);
        lemma_insert_by_weight(rest, e);
        assert(out.drop_last() =~= inner);
        assert forall|i: int| 0 <= i < sorted.len() + 1 implies ({
            let x = #[trigger] out[i];
            x == e || sorted.contains(x)
        }) by {
            if i < inner.len() {
                let x = inner[i];
                if x != e {
                    let k = choose|k: int| 0 <= k < rest.len() && rest[k] == x;
                    assert(sorted[k] == x);
                }
            } else {
                assert(sorted[sorted.len() - 1] == out[i]);
            }
        }
        assert forall|i: int, j: int| 0 <= i <= j < out.len() implies out[i].weight
            <= out[j].weight by {
            if j < inner.len() {
                assert(inner[i].weight <= inner[j].weight);
            } else if i < inner.len() {
                let x = inner[i];
                if x != e {
                    let k = choose|k: int| 0 <= k < rest.len() && rest[k] == x;
                    assert(sorted[k].weight <= sorted[sorted.len() - 1].weight);
                }
            }
        }
        assert forall|w: i64|
            #[trigger] with_weight(out, w) == if e.weight == w {
                with_weight(sorted, w).push(e)
            } else {
                with_weight(sorted, w)
            } by {
            let _ = with_weight(inner, w);
        }
    }
}

/// Sorting keeps the number of edges.
pub proof fn lemma_sort_len(edges: Seq<Edge>)
    ensures
        sort_by_weight(edges).len() == edges.len(),
    decreases edges.len(),
{
    if edges.len() > 0 {
        lemma_sort_len(edges.drop_last());
        lemma_sort_is_stable(edges.drop_last());
        lemma_insert_by_weight(sort_by_weight(edges.drop_last()), edges.last());
    }
}

/// The sorted list is sorted, and holds the edges of each weight as the list
/// that was sorted has them.
pub proof fn lemma_sort_is_stable(edges: Seq<Edge>)
    ensures
        is_stable_sort_of(sort_by_weight(edges), edges),
    decreases edges.len(),
{
    if edges.len() > 0 {
        let rest = edges.drop_last();
        lemma_sort_is_stable(rest);
        lemma_insert_by_weight(sort_by_weight(rest), edges.last());
        assert forall|w: i64| with_weight(sort_by_weight(edges), w) == with_weight(edges, w) by {
            let _ = with_weight(insert_by_weight(sort_by_weight(rest), edges.last()), w);
            assert(with_weight(sort_by_weight(rest), w) == with_weight(rest, w));
        }
    }
}

/// Two sorted lists that hold the same edges of each weight, in the same
/// order, are one list.
pub proof fn lemma_stable_sort_unique(a: Seq<Edge>, b: Seq<Edge>)
    requires
        sorted_by_weight(a),
        sorted_by_weight(b),
        forall|w: i64| with_weight(a, w) == with_weight(b, w),
    ensures
        a == b,
    decreases a.len(),
{
    if a.len() == 0 {
        if b.len() > 0 {
            assert(with_weight(b, b.last().weight).len() > 0);
            assert(with_weight(a, b.last().weight).len() == 0);
        }
        assert(a =~= b);
    } else {
        let x = a.last();
        assert(with_weight(a, x.weight).len() > 0);
        assert(with_weight(b, x.weight).len() > 0);
        let y = b.last();
        assert(with_weight(b, y.weight).len() > 0);
        assert(with_weight(a, y.weight).len() > 0);
        let i = lemma_with_weight_present(b, x.weight);
        let j = lemma_with_weight_present(a, y.weight);
        assert(x.weight == y.weight);
        let ra = a.drop_last();
        let rb = b.drop_last();
        assert forall|w: i64| with_weight(ra, w) == with_weight(rb, w) by {
            assert(with_weight(a, w) == with_weight(b, w));
            if w == x.weight {
                assert(with_weight(ra, w).push(x).drop_last() =~= with_weight(ra, w));
                assert(with_weight(rb, w).push(y).drop_last() =~= with_weight(rb, w));
            }
        }
        assert(x == y) by {
            assert(with_weight(a, x.weight) == with_weight(b, x.weight));
            assert(with_weight(ra, x.weight).push(x).last() == x);
            assert(with_weight(rb, x.weight).push(y).last() == y);
        }
        lemma_stable_sort_unique(ra, rb);
        assert(a =~= ra.push(x));
        assert(b =~= rb.push(y));
    }
}

/// A sorted list is its own sorted list.
pub proof fn lemma_sort_of_sorted(edges: Seq<Edge>)
    requires
        sorted_by_weight(edges),
    ensures
        sort_by_weight(edges) == edges,
{
    lemma_sort_is_stable(edges);
    lemma_stable_sort_unique(sort_by_weight(edges), edges);
}

/// The sorted list holds the edges of the list that was sorted, and no others.
pub proof fn lemma_sort_contains(edges: Seq<Edge>, e: Edge)
    ensures
        sort_by_weight(edges).contains(e) <==> edges.contains(e),
{
    lemma_sort_is_stable(edges);
    lemma_with_weight_contains(edges, e.weight, e);
    lemma_with_weight_contains(sort_by_weight(edges), e.weight, e);
}

/// Merges two sorted lists into one: at equal weight the edges of `left` come
/// before those of `right`.
fn merge(left: &Vec<Edge>, right: &Vec<Edge>) -> (out: Vec<Edge>)
    requires
        sorted_by_weight(left@),
        sorted_by_weight(right@),
        left@.len() + right@.len() <= usize::MAX,
    ensures
        sorted_by_weight(out@),
        forall|w: i64| with_weight(out@, w) == with_weight(left@, w) + with_weight(right@, w),
{
    let mut out: Vec<Edge> = Vec::new();
    let mut i: usize = 0;
    let mut j: usize = 0;
    while i < left.len() || j < right.len()
        invariant
            i <= left.len(),
            j <= right.len(),
            left@.len() + right@.len() <= usize::MAX,
            sorted_by_weight(left@),
            sorted_by_weight(right@),
            sorted_by_weight(out@),
            forall|w: i64|
                with_weight(out@, w) == with_weight(left@.take(i as int), w) + with_weight(
                    right@.take(j as int),
                    w,
                ),
            forall|k: int|
                0 <= k < out@.len() && i < left.len() ==> out@[k].weight <= left@[i as int].weight,
            forall|k: int|
                0 <= k < out@.len() && j < right.len() ==> out@[k].weight
                    <= right@[j as int].weight,
            forall|k: int|
                0 <= k < j && i < left.len() ==> right@[k].weight < left@[i as int].weight,
        decreases left.len() - i + right.len() - j,
    {
        let ghost before = out@;
        if j >= right.len() || (i < left.len() && left[i].weight <= right[j].weight) {
            let x = left[i];
            out.push(x);
            proof {
                let taken = left@.take(i + 1);
                assert(taken.drop_last() =~= left@.take(i as int));
                assert(taken.last() == x);
                assert(out@.drop_last() =~= before);
                assert(out@.last() == x);
                lemma_with_weight_absent(right@.take(j as int), x.weight);
                assert forall|w: i64|
                    with_weight(out@, w) == with_weight(taken, w) + with_weight(
                        right@.take(j as int),
                        w,
                    ) by {
                    let wl = with_weight(left@.take(i as int), w);
                    let wr = with_weight(right@.take(j as int), w);
                    assert(with_weight(before, w) == wl + wr);
                    if w == x.weight {
                        assert(with_weight(out@, w) == (wl + wr).push(x));
                        assert(with_weight(taken, w) == wl.push(x));
                        assert((wl + wr).push(x) =~= wl.push(x) + wr);
                    } else {
                        assert(with_weight(out@, w) == wl + wr);
                        assert(with_weight(taken, w) == wl);
                    }
                }
            }
            i += 1;
        } else {
            let y = right[j];
            out.push(y);
            proof {
                let taken = right@.take(j + 1);
                assert(taken.drop_last() =~= right@.take(j as int));
                assert(taken.last() == y);
                assert(out@.drop_last() =~= before);
                assert(out@.last() == y);
                assert forall|w: i64|
                    with_weight(out@, w) == with_weight(left@.take(i as int), w) + with_weight(
                        taken,
                        w,
                    ) by {
                    let wl = with_weight(left@.take(i as int), w);
                    let wr = with_weight(right@.take(j as int), w);
                    assert(with_weight(before, w) == wl + wr);
                    if w == y.weight {
                        assert(with_weight(out@, w) == (wl + wr).push(y));
                        assert(with_weight(taken, w) == wr.push(y));
                        assert((wl + wr).push(y) =~= wl + wr.push(y));
                    } else {
                        assert(with_weight(out@, w) == wl + wr);
                        assert(with_weight(taken, w) == wr);
                    }
                }
            }
            j += 1;
        }
    }
    proof {
        assert(left@.take(i as int) =~= left@);
        assert(right@.take(j as int) =~= right@);
    }
    out
}

/// The edges of `edges` from place `lo` up to, and without, place `hi`, sorted.
fn sort_range(edges: &Vec<Edge>, lo: usize, hi: usize) -> (out: Vec<Edge>)
    requires
        lo <= hi <= edges.len(),
    ensures
        out@ == sort_by_weight(edges@.subrange(lo as int, hi as int)),
    decreases hi - lo,
{
    let ghost part = edges@.subrange(lo as int, hi as int);
    if hi - lo <= 1 {
        let mut out: Vec<Edge> = Vec::new();
        if lo < hi {
            out.push(edges[lo]);
            proof {
                assert(part.drop_last() =~= Seq::<Edge>::empty());
                assert(sort_by_weight(part.drop_last()) =~= Seq::<Edge>::empty());
                assert(out@ =~= sort_by_weight(part));
            }
        } else {
            assert(out@ =~= sort_by_weight(part));
        }
        out
    } else {
        let mid = lo + (hi - lo) / 2;
        let left = sort_range(edges, lo, mid);
        let right = sort_range(edges, mid, hi);
        proof {
            let a = edges@.subrange(lo as int, mid as int);
            let b = edges@.subrange(mid as int, hi as int);
            lemma_sort_len(a);
            lemma_sort_len(b);
            lemma_sort_is_stable(a);
            lemma_sort_is_stable(b);
        }
        let out = merge(&left, &right);
        proof {
            let a = edges@.subrange(lo as int, mid as int);
            let b = edges@.subrange(mid as int, hi as int);
            assert(part =~= a + b);
            lemma_sort_is_stable(part);
            assert forall|w: i64| with_weight(out@, w) == with_weight(sort_by_weight(part), w) by {
                lemma_with_weight_concat(a, b, w);
                assert(with_weight(left@, w) == with_weight(a, w));
                assert(with_weight(right@, w) == with_weight(b, w));
                assert(with_weight(sort_by_weight(part), w) == with_weight(part, w));
            }
            lemma_stable_sort_unique(out@, sort_by_weight(part));
        }
        out
    }
}

/// Sorts the edges by weight, lightest first. Edges of equal weight keep their
/// order.
pub fn stable_sort_by_weight(edges: &mut Vec<Edge>)
    ensures
        final(edges)@ == sort_by_weight(old(edges)@),
{
    let sorted = sort_range(edges, 0, edges.len());
    proof {
        assert(edges@.subrange(0, edges@.len() as int) =~= edges@);
    }
    *edges = sorted;
}

} // verus!
