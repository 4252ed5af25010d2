//! Putting segments in the order in which they start.

use crate::scalar;
use crate::types::DiarizationSegment;
use vstd::prelude::*;

verus! {

/// The times at which these segments start.
pub open spec fn starts<T>(segments: Seq<DiarizationSegment<T>>) -> Set<T> {
    segments.map_values(|s: DiarizationSegment<T>| s.start).to_set()
}

/// Segment `i` goes before segment `j`: it starts earlier, or at the same time
/// and stands earlier in the list.
pub open spec fn goes_before<T: PartialOrd>(
    segments: Seq<DiarizationSegment<T>>,
    i: int,
    j: int,
) -> bool {
    ||| scalar::lt(segments[i].start, segments[j].start)
    ||| scalar::le(segments[i].start, segments[j].start) && i < j
}

/// Reading `input` at the indices in `order` gives `output`, each index is read
/// once, and what goes before is read before.
pub open spec fn ordered_by<T: PartialOrd>(
    input: Seq<DiarizationSegment<T>>,
    output: Seq<DiarizationSegment<T>>,
    order: Seq<int>,
) -> bool {
    &&& order.len() == input.len()
    &&& output == Seq::new(order.len(), |k: int| input[order[k]])
    &&& forall|k: int| 0 <= k < order.len() ==> 0 <= #[trigger] order[k] < input.len()
    &&& forall|i: int| 0 <= i < input.len() ==> #[trigger] order.contains(i)
    &&& forall|k: int, l: int|
        0 <= k < l < order.len() ==> #[trigger] goes_before(input, order[k], order[l])
}

/// `output` holds the segments of `input`, earlier starts first; segments that
/// start together keep their order.
pub open spec fn is_sorted_from<T: PartialOrd>(
    input: Seq<DiarizationSegment<T>>,
    output: Seq<DiarizationSegment<T>>,
) -> bool {
    exists|order: Seq<int>| ordered_by(input, output, order)
}

/// The segments of `input`, earlier starts first; segments that start together
/// keep their order.
pub open spec fn sorted_by_start<T: PartialOrd>(
    input: Seq<DiarizationSegment<T>>,
) -> Seq<DiarizationSegment<T>> {
    choose|output: Seq<DiarizationSegment<T>>| is_sorted_from(input, output)
}

/// Segments come in order of their starts.
pub open spec fn in_order<T: PartialOrd>(segments: Seq<DiarizationSegment<T>>) -> bool {
    forall|i: int, j: int|
        0 <= i < j < segments.len() ==> scalar::le(
            (#[trigger] segments[i]).start,
            (#[trigger] segments[j]).start,
        )
}

/// There is one way only to put segments in order of their starts.
pub proof fn law_sorting_has_one_result<T: PartialOrd>(
    input: Seq<DiarizationSegment<T>>,
    one: Seq<DiarizationSegment<T>>,
    other: Seq<DiarizationSegment<T>>,
)
    requires
        scalar::linear(starts(input)),
        is_sorted_from(input, one),
        is_sorted_from(input, other),
    ensures
        one == other,
{
    let p = choose|order: Seq<int>| ordered_by(input, one, order);
    let q = choose|order: Seq<int>| ordered_by(input, other, order);
    lemma_same_order(input, one, other, p, q, input.len() as int);
    assert(p =~= q);
}

/// Sorting neither adds a segment nor leaves one out.
pub proof fn lemma_sorting_keeps_segments<T: PartialOrd>(
    input: Seq<DiarizationSegment<T>>,
    output: Seq<DiarizationSegment<T>>,
)
    requires
        is_sorted_from(input, output),
    ensures
        output.len() == input.len(),
        forall|segment: DiarizationSegment<T>| #[trigger]
            output.contains(segment) <==> input.contains(segment),
{
    let order = choose|order: Seq<int>| ordered_by(input, output, order);
    assert forall|segment: DiarizationSegment<T>| #[trigger]
        output.contains(segment) <==> input.contains(segment) by {
        if output.contains(segment) {
            let k = choose|k: int| 0 <= k < output.len() && output[k] == segment;
            assert(input[order[k]] == segment);
        }
        if input.contains(segment) {
            let i = choose|i: int| 0 <= i < input.len() && input[i] == segment;
            assert(order.contains(i));
            let k = choose|k: int| 0 <= k < order.len() && order[k] == i;
            assert(output[k] == segment);
        }
    }
}

/// Sorting reads no index twice.
pub proof fn lemma_order_has_no_repeats<T: PartialOrd>(
    input: Seq<DiarizationSegment<T>>,
    output: Seq<DiarizationSegment<T>>,
    order: Seq<int>,
    i: int,
    j: int,
)
    requires
        scalar::linear(starts(input)),
        ordered_by(input, output, order),
        0 <= i < j < order.len(),
    ensures
        order[i] != order[j],
{
    assert(goes_before(input, order[i], order[j]));
    lemma_goes_before_is_strict(input, order[i], order[j]);
}

proof fn lemma_start_listed<T>(segments: Seq<DiarizationSegment<T>>, i: int)
    requires
        0 <= i < segments.len(),
    ensures
        starts(segments).contains(segments[i].start),
{
    let keys = segments.map_values(|s: DiarizationSegment<T>| s.start);
    assert(keys[i] == segments[i].start);
    assert(keys.contains(segments[i].start));
}

proof fn lemma_goes_before_is_strict<T: PartialOrd>(
    segments: Seq<DiarizationSegment<T>>,
    i: int,
    j: int,
)
    requires
        scalar::linear(starts(segments)),
        0 <= i < segments.len(),
        0 <= j < segments.len(),
    ensures
        !(goes_before(segments, i, j) && goes_before(segments, j, i)),
        i != j ==> goes_before(segments, i, j) || goes_before(segments, j, i),
{
    lemma_start_listed(segments, i);
    lemma_start_listed(segments, j);
    let a = segments[i].start;
    let b = segments[j].start;
    assert(scalar::le(a, b) == !scalar::lt(b, a));
    assert(scalar::le(b, a) == !scalar::lt(a, b));
}

proof fn lemma_same_order<T: PartialOrd>(
    input: Seq<DiarizationSegment<T>>,
    one: Seq<DiarizationSegment<T>>,
    other: Seq<DiarizationSegment<T>>,
    p: Seq<int>,
    q: Seq<int>,
    n: int,
)
    requires
        scalar::linear(starts(input)),
        ordered_by(input, one, p),
        ordered_by(input, other, q),
        0 <= n <= input.len(),
    ensures
        forall|k: int| 0 <= k < n ==> p[k] == q[k],
    decreases n,
{
    if n > 0 {
        lemma_same_order(input, one, other, p, q, n - 1);
        let last = n - 1;
        if p[last] != q[last] {
            lemma_goes_before_is_strict(input, p[last], q[last]);
            assert(q.contains(p[last]));
            assert(p.contains(q[last]));
            let k = choose|k: int| 0 <= k < q.len() && q[k] == p[last];
            let l = choose|l: int| 0 <= l < p.len() && p[l] == q[last];
            if k < last {
                assert(goes_before(input, p[k], p[last]));
                lemma_goes_before_is_strict(input, p[last], p[last]);
            }
            if l < last {
                assert(goes_before(input, q[l], q[last]));
                lemma_goes_before_is_strict(input, q[last], q[last]);
            }
            assert(goes_before(input, q[last], q[k]));
            assert(goes_before(input, p[last], p[l]));
        }
    }
}

/// Segments whose starts can be compared can be sorted, and come in order then.
pub proof fn law_sorting_puts_in_order<T: PartialOrd>(segments: Seq<DiarizationSegment<T>>)
    requires
        scalar::linear(starts(segments)),
    ensures
        is_sorted_from(segments, sorted_by_start(segments)),
        in_order(sorted_by_start(segments)),
{
    let n = segments.len() as int;
    lemma_can_be_sorted(segments, n);
    assert(segments.take(n) =~= segments);
    let sorted = sorted_by_start(segments);
    let order = choose|order: Seq<int>| ordered_by(segments, sorted, order);
    assert forall|i: int, j: int| 0 <= i < j < sorted.len() implies scalar::le(
        (#[trigger] sorted[i]).start,
        (#[trigger] sorted[j]).start,
    ) by {
        assert(goes_before(segments, order[i], order[j]));
        lemma_start_listed(segments, order[i]);
        lemma_start_listed(segments, order[j]);
        assert(scalar::le(sorted[i].start, sorted[j].start) || scalar::le(
            sorted[j].start,
            sorted[i].start,
        ));
    }
}

/// Sorting changes nothing where segments are in order already.
pub proof fn law_sorting_keeps_what_is_in_order<T: PartialOrd>(
    segments: Seq<DiarizationSegment<T>>,
)
    requires
        scalar::linear(starts(segments)),
        in_order(segments),
    ensures
        sorted_by_start(segments) == segments,
{
    let order = Seq::new(segments.len(), |k: int| k);
    assert(segments =~= Seq::new(order.len(), |k: int| segments[order[k]]));
    assert forall|i: int| 0 <= i < segments.len() implies #[trigger] order.contains(i) by {
        assert(order[i] == i);
    }
    assert forall|k: int, l: int| 0 <= k < l < order.len() implies #[trigger] goes_before(
        segments,
        order[k],
        order[l],
    ) by {
        assert(scalar::le(segments[k].start, segments[l].start));
    }
    assert(ordered_by(segments, segments, order));
    assert(is_sorted_from(segments, segments));
    law_sorting_has_one_result(segments, segments, sorted_by_start(segments));
}

/// Where a segment that starts at `start` goes among the first `at`.
spec fn place_for<T: PartialOrd>(
    sorted: Seq<DiarizationSegment<T>>,
    start: T,
    at: int,
) -> int
    decreases at,
{
    if at > 0 && scalar::lt(start, sorted[at - 1].start) {
        place_for(sorted, start, at - 1)
    } else {
        at
    }
}

proof fn lemma_place<T: PartialOrd>(sorted: Seq<DiarizationSegment<T>>, start: T, at: int)
    requires
        0 <= at <= sorted.len(),
        forall|k: int| at <= k < sorted.len() ==> scalar::lt(start, (#[trigger] sorted[k]).start),
    ensures
        0 <= place_for(sorted, start, at) <= sorted.len(),
        forall|k: int|
            place_for(sorted, start, at) <= k < sorted.len() ==> scalar::lt(
                start,
                (#[trigger] sorted[k]).start,
            ),
        place_for(sorted, start, at) > 0 ==> !scalar::lt(
            start,
            sorted[place_for(sorted, start, at) - 1].start,
        ),
    decreases at,
{
    if at > 0 && scalar::lt(start, sorted[at - 1].start) {
        lemma_place(sorted, start, at - 1);
    }
}

proof fn lemma_can_be_sorted<T: PartialOrd>(segments: Seq<DiarizationSegment<T>>, n: int)
    requires
        scalar::linear(starts(segments)),
        0 <= n <= segments.len(),
    ensures
        exists|sorted: Seq<DiarizationSegment<T>>| is_sorted_from(segments.take(n), sorted),
    decreases n,
{
    if n == 0 {
        let none = Seq::<DiarizationSegment<T>>::empty();
        let order = Seq::<int>::empty();
        assert(none =~= Seq::new(order.len(), |k: int| segments.take(n)[order[k]]));
        assert(ordered_by(segments.take(n), none, order));
        assert(is_sorted_from(segments.take(n), none));
    } else {
        lemma_can_be_sorted(segments, n - 1);
        let before = segments.take(n - 1);
        let sorted = choose|sorted: Seq<DiarizationSegment<T>>| is_sorted_from(before, sorted);
        let order = choose|order: Seq<int>| ordered_by(before, sorted, order);
        let start = segments[n - 1].start;
        let at = place_for(sorted, start, sorted.len() as int);
        lemma_place(sorted, start, sorted.len() as int);
        lemma_insert(segments, n - 1, sorted, order, at);
        assert(is_sorted_from(segments.take(n), sorted.insert(at, segments[n - 1])));
    }
}

/// Where all starts are among values that can be compared, they can be compared.
pub proof fn lemma_starts_among<T: PartialOrd>(
    segments: Seq<DiarizationSegment<T>>,
    values: Set<T>,
)
    requires
        scalar::linear(values),
        forall|i: int| 0 <= i < segments.len() ==> values.contains((#[trigger] segments[i]).start),
    ensures
        scalar::linear(starts(segments)),
{
    let keys = segments.map_values(|s: DiarizationSegment<T>| s.start);
    assert forall|a: T| #[trigger] starts(segments).contains(a) implies values.contains(a) by {
        let i = choose|i: int| 0 <= i < keys.len() && keys[i] == a;
        assert(segments[i].start == a);
    }
}

/// Puts segments in order of their starts; those that start together keep their
/// order.
pub fn sort_by_start<T: Copy + PartialOrd>(segments: &Vec<DiarizationSegment<T>>) -> (sorted: Vec<
    DiarizationSegment<T>,
>)
    requires
        scalar::ordered::<T>(),
        scalar::linear(starts(segments@)),
    ensures
        is_sorted_from(segments@, sorted@),
        sorted@ == sorted_by_start(segments@),
        in_order(sorted@),
{
    let mut sorted: Vec<DiarizationSegment<T>> = Vec::new();
    let ghost mut order: Seq<int> = Seq::empty();
    let mut next: usize = 0;
    proof {
        assert(sorted@ =~= Seq::new(0, |k: int| segments@.take(0)[order[k]]));
    }
    while next < segments.len()
        invariant
            next <= segments.len(),
            scalar::ordered::<T>(),
            scalar::linear(starts(segments@)),
            ordered_by(segments@.take(next as int), sorted@, order),
        decreases segments.len() - next,
    {
        let segment = segments[next];
        let mut at: usize = sorted.len();
        while at > 0 && segment.start < sorted[at - 1].start
            invariant
                at <= sorted@.len(),
                next < segments@.len(),
                segment == segments@[next as int],
                scalar::ordered::<T>(),
                ordered_by(segments@.take(next as int), sorted@, order),
                forall|k: int|
                    at <= k < sorted@.len() ==> scalar::lt(
                        segment.start,
                        #[trigger] sorted@[k].start,
                    ),
            decreases at,
        {
            at = at - 1;
        }
        proof {
            lemma_insert(segments@, next as int, sorted@, order, at as int);
            order = order.insert(at as int, next as int);
        }
        sorted.insert(at, segment);
        next = next + 1;
    }
    proof {
        assert(segments@.take(next as int) =~= segments@);
        assert(is_sorted_from(segments@, sorted@));
        law_sorting_puts_in_order(segments@);
        law_sorting_has_one_result(segments@, sorted@, sorted_by_start(segments@));
    }
    sorted
}

proof fn lemma_insert<T: PartialOrd>(
    segments: Seq<DiarizationSegment<T>>,
    next: int,
    sorted: Seq<DiarizationSegment<T>>,
    order: Seq<int>,
    at: int,
)
    requires
        scalar::linear(starts(segments)),
        0 <= next < segments.len(),
        ordered_by(segments.take(next), sorted, order),
        0 <= at <= sorted.len(),
        forall|k: int|
            at <= k < sorted.len() ==> scalar::lt(segments[next].start, #[trigger] sorted[k].start),
        at > 0 ==> !scalar::lt(segments[next].start, sorted[at - 1].start),
    ensures
        ordered_by(
            segments.take(next + 1),
            sorted.insert(at, segments[next]),
            order.insert(at, next),
        ),
{
    let before = segments.take(next);
    let after = segments.take(next + 1);
    let order2 = order.insert(at, next);
    assert(sorted.insert(at, segments[next]) =~= Seq::new(order2.len(), |k: int| after[order2[k]]));
    assert forall|i: int| 0 <= i < after.len() implies #[trigger] order2.contains(i) by {
        if i == next {
            assert(order2[at] == i);
        } else {
            assert(order.contains(i));
            let k = choose|k: int| 0 <= k < order.len() && order[k] == i;
            if k < at {
                assert(order2[k] == i);
            } else {
                assert(order2[k + 1] == i);
            }
        }
    }
    assert forall|k: int, l: int| 0 <= k < l < order2.len() implies #[trigger] goes_before(
        after,
        order2[k],
        order2[l],
    ) by {
        if k != at && l != at {
            let k0 = if k < at { k } else { k - 1 };
            let l0 = if l < at { l } else { l - 1 };
            assert(goes_before(before, order[k0], order[l0]));
        } else if k == at {
            assert(scalar::lt(segments[next].start, sorted[l - 1].start));
        } else {
            // Everything left of the new segment starts no later than it.
            lemma_start_listed(segments, order[k]);
            lemma_start_listed(segments, order[at - 1]);
            lemma_start_listed(segments, next);
            let a = segments[order[k]].start;
            let b = segments[order[at - 1]].start;
            let c = segments[next].start;
            assert(scalar::le(b, c) == !scalar::lt(c, b));
            if k < at - 1 {
                assert(goes_before(before, order[k], order[at - 1]));
                assert(scalar::le(a, b) == !scalar::lt(b, a));
                assert(scalar::le(b, a) == !scalar::lt(a, b));
            }
        }
    }
}

} // verus!
