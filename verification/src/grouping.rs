//! What grouping voice prints comes to, in terms of how far apart they are.

use crate::clustering;
use crate::clustering::{Measure, Units};
use crate::exact;
use crate::features;
use crate::functions;
use crate::scalar;
use crate::types::SpeakerEmbedding;
use core::ops::{Add, Div, Sub};
use vstd::prelude::*;
#[allow(unused_imports)]
use vstd::std_specs::ops::{AddSpec, DivSpec, SubSpec};

verus! {

/// Distances are exact numbers, and the numbers of the measure are what they say.
pub open spec fn measures_exactly<
    T: PartialOrd + Add<Output = T> + Sub<Output = T> + Div<Output = T>,
>(of: spec_fn(T) -> real, measure: Measure<T>) -> bool {
    &&& exact::adds(of)
    &&& exact::subtracts(of)
    &&& exact::divides(of)
    &&& exact::compares(of)
    &&& of(measure.units.zero) == 0real
    &&& of(measure.units.one) == 1real
    &&& forall|n: usize| of(#[trigger] (measure.counts)(n)) == n as real
}

/// How far element `x` is from element `y`: one less their similarity.
pub open spec fn apart<T>(of: spec_fn(T) -> real, measure: Measure<T>, x: usize, y: usize) -> real {
    1real - of((measure.similarity)(x as int, y as int))
}

/// How far `x` is from each element of a cluster.
pub open spec fn apart_from<T>(
    of: spec_fn(T) -> real,
    measure: Measure<T>,
    x: usize,
    b: Seq<usize>,
) -> spec_fn(int) -> real {
    |j: int| apart(of, measure, x, b[j])
}

/// How far each element of a cluster is from all elements of another together.
pub open spec fn apart_in_all<T>(
    of: spec_fn(T) -> real,
    measure: Measure<T>,
    a: Seq<usize>,
    b: Seq<usize>,
) -> spec_fn(int) -> real {
    |i: int| exact::sum(apart_from(of, measure, a[i], b), b.len() as int)
}

/// How far the elements of two clusters are from each other, added up over all pairs of
/// an element of one and an element of the other.
pub open spec fn all_pairs<T>(
    of: spec_fn(T) -> real,
    measure: Measure<T>,
    a: Seq<usize>,
    b: Seq<usize>,
) -> real {
    exact::sum(apart_in_all(of, measure, a, b), a.len() as int)
}

/// The numbers of a list, read.
pub open spec fn read_all<T>(of: spec_fn(T) -> real, values: Seq<T>) -> spec_fn(int) -> real {
    |k: int| of(values[k])
}

pub proof fn lemma_sum_of_is_a_sum<T: Add<Output = T>>(
    of: spec_fn(T) -> real,
    values: Seq<T>,
    zero: T,
    n: int,
)
    requires
        exact::adds(of),
        of(zero) == 0real,
    ensures
        of(features::sum_of(values, zero, n)) == exact::sum(read_all(of, values), n),
    decreases n,
{
    if n > 0 {
        lemma_sum_of_is_a_sum(of, values, zero, n - 1);
    }
}

proof fn lemma_pairs_in_turn<T: PartialOrd + Add<Output = T> + Sub<Output = T> + Div<Output = T>>(
    of: spec_fn(T) -> real,
    measure: Measure<T>,
    a: Seq<usize>,
    b: Seq<usize>,
    i: int,
    j: int,
)
    requires
        measures_exactly(of, measure),
        b.len() > 0,
        0 <= i,
        0 <= j <= b.len(),
        i < a.len() || (i == a.len() && j == 0),
    ensures
        exact::sum(
            read_all(
                of,
                clustering::pair_distances(measure.similarity, measure.units.one, a, b),
            ),
            i * b.len() + j,
        ) == exact::sum(apart_in_all(of, measure, a, b), i) + exact::sum(
            apart_from(of, measure, a[i], b),
            j,
        ),
    decreases i, j,
{
    let w = b.len() as int;
    let distances = clustering::pair_distances(measure.similarity, measure.units.one, a, b);
    let read = read_all(of, distances);
    if j > 0 {
        lemma_pairs_in_turn(of, measure, a, b, i, j - 1);
        let k = i * w + j - 1;
        assert(0 <= k < a.len() * w) by (nonlinear_arith)
            requires
                0 <= i < a.len(),
                0 < j <= w,
                k == i * w + j - 1,
        ;
        vstd::arithmetic::div_mod::lemma_fundamental_div_mod_converse(k, w, i, j - 1);
        assert(read(k) == apart(of, measure, a[i], b[j - 1]));
        assert(exact::sum(read, k + 1) == exact::sum(read, k) + read(k));
    } else if i > 0 {
        lemma_pairs_in_turn(of, measure, a, b, i - 1, w);
        assert((i - 1) * w + w == i * w) by (nonlinear_arith);
    } else {
        assert(0 * w == 0) by (nonlinear_arith);
    }
}

/// The distance between two clusters is the mean over all pairs: times the number of
/// pairs, it is how far each element of the one is from each of the other, added up.
pub proof fn law_linkage_is_the_mean_over_all_pairs<
    T: PartialOrd + Add<Output = T> + Sub<Output = T> + Div<Output = T>,
>(of: spec_fn(T) -> real, measure: Measure<T>, a: Seq<usize>, b: Seq<usize>)
    requires
        measures_exactly(of, measure),
        a.len() > 0,
        b.len() > 0,
        a.len() * b.len() <= usize::MAX,
    ensures
        of(measure.linkage(a, b)) * ((a.len() * b.len()) as real) == all_pairs(of, measure, a, b),
{
    let distances = clustering::pair_distances(measure.similarity, measure.units.one, a, b);
    let n = (a.len() * b.len()) as int;
    assert(n > 0) by (nonlinear_arith)
        requires
            n == a.len() * b.len(),
            a.len() > 0,
            b.len() > 0,
    ;
    lemma_sum_of_is_a_sum(of, distances, measure.units.zero, n);
    lemma_pairs_in_turn(of, measure, a, b, a.len() as int, 0);
    assert(of((measure.counts)(n as usize)) == n as real);
}

proof fn lemma_sums_add_up(
    f: spec_fn(int) -> real,
    g: spec_fn(int) -> real,
    h: spec_fn(int) -> real,
    n: int,
)
    requires
        forall|i: int| 0 <= i < n ==> #[trigger] h(i) == f(i) + g(i),
    ensures
        exact::sum(h, n) == exact::sum(f, n) + exact::sum(g, n),
    decreases n,
{
    if n > 0 {
        lemma_sums_add_up(f, g, h, n - 1);
        assert(h(n - 1) == f(n - 1) + g(n - 1));
    }
}

/// Adding up row by row is adding up column by column.
proof fn lemma_pairs_exchanged<T>(
    of: spec_fn(T) -> real,
    measure: Measure<T>,
    a: Seq<usize>,
    b: Seq<usize>,
    n: int,
)
    requires
        forall|x: int, y: int| #[trigger] (measure.similarity)(x, y) == (measure.similarity)(y, x),
        0 <= n <= a.len(),
    ensures
        exact::sum(apart_in_all(of, measure, a, b), n) == exact::sum(
            apart_in_all(of, measure, b, a.take(n)),
            b.len() as int,
        ),
    decreases n,
{
    let w = b.len() as int;
    let now = apart_in_all(of, measure, b, a.take(n));
    if n > 0 {
        lemma_pairs_exchanged(of, measure, a, b, n - 1);
        let before = apart_in_all(of, measure, b, a.take(n - 1));
        let new = apart_from(of, measure, a[n - 1], b);
        assert forall|j: int| 0 <= j < w implies #[trigger] now(j) == before(j) + new(j) by {
            let long = apart_from(of, measure, b[j], a.take(n));
            let short = apart_from(of, measure, b[j], a.take(n - 1));
            exact::lemma_sum_same(long, short, n - 1);
            assert(long(n - 1) == apart(of, measure, b[j], a[n - 1]));
            assert(new(j) == apart(of, measure, a[n - 1], b[j]));
        }
        lemma_sums_add_up(before, new, now, w);
        assert(exact::sum(apart_in_all(of, measure, a, b), n) == exact::sum(
            apart_in_all(of, measure, a, b),
            n - 1,
        ) + exact::sum(new, w));
    } else {
        exact::lemma_sum_of_nothing(w);
        exact::lemma_sum_same(now, |i: int| 0real, w);
    }
}

/// Where similarity is symmetric, two clusters are as far from each other whichever of
/// them comes first.
pub proof fn law_linkage_is_symmetric<
    T: PartialOrd + Add<Output = T> + Sub<Output = T> + Div<Output = T>,
>(of: spec_fn(T) -> real, measure: Measure<T>, a: Seq<usize>, b: Seq<usize>)
    requires
        measures_exactly(of, measure),
        forall|x: int, y: int| #[trigger] (measure.similarity)(x, y) == (measure.similarity)(y, x),
        a.len() > 0,
        b.len() > 0,
        a.len() * b.len() <= usize::MAX,
    ensures
        of(measure.linkage(a, b)) == of(measure.linkage(b, a)),
{
    assert(a.len() * b.len() == b.len() * a.len() && a.len() * b.len() > 0) by (nonlinear_arith)
        requires
            a.len() > 0,
            b.len() > 0,
    ;
    law_linkage_is_the_mean_over_all_pairs(of, measure, a, b);
    law_linkage_is_the_mean_over_all_pairs(of, measure, b, a);
    lemma_pairs_exchanged(of, measure, a, b, a.len() as int);
    assert(a.take(a.len() as int) =~= a);
    let n = (a.len() * b.len()) as real;
    let x = of(measure.linkage(a, b));
    let y = of(measure.linkage(b, a));
    assert(x == y) by (nonlinear_arith)
        requires
            x * n == y * n,
            n > 0real,
    ;
}

/// The number of each element of a list.
pub open spec fn each(g: spec_fn(usize) -> real, a: Seq<usize>) -> spec_fn(int) -> real {
    |i: int| g(a[i])
}

proof fn lemma_sum_without_one(g: spec_fn(usize) -> real, a: Seq<usize>, k: int, n: int)
    requires
        0 <= k < n <= a.len(),
    ensures
        exact::sum(each(g, a), n) == exact::sum(each(g, a.remove(k)), n - 1) + g(a[k]),
    decreases n,
{
    let whole = each(g, a);
    let rest = each(g, a.remove(k));
    if k < n - 1 {
        lemma_sum_without_one(g, a, k, n - 1);
        assert(rest(n - 2) == whole(n - 1));
        assert(exact::sum(rest, n - 1) == exact::sum(rest, n - 2) + rest(n - 2));
    } else {
        assert forall|i: int| 0 <= i < n - 1 implies #[trigger] whole(i) == rest(i) by {}
        exact::lemma_sum_same(whole, rest, n - 1);
    }
}

/// A sum over a list does not depend on the order of the list.
proof fn lemma_sum_in_any_order(g: spec_fn(usize) -> real, a: Seq<usize>, b: Seq<usize>)
    requires
        a.to_multiset() == b.to_multiset(),
    ensures
        a.len() == b.len(),
        exact::sum(each(g, a), a.len() as int) == exact::sum(each(g, b), b.len() as int),
    decreases a.len(),
{
    broadcast use vstd::seq_lib::group_to_multiset_ensures;

    assert(a.len() == a.to_multiset().len() && b.len() == b.to_multiset().len());
    if a.len() > 0 {
        let n = a.len() as int;
        let x = a[n - 1];
        assert(a.contains(x));
        assert(b.to_multiset().count(x) > 0);
        assert(b.contains(x));
        let k = choose|k: int| 0 <= k < b.len() && b[k] == x;
        assert(a.remove(n - 1).to_multiset() =~= a.to_multiset().remove(x));
        assert(b.remove(k).to_multiset() =~= b.to_multiset().remove(x));
        lemma_sum_in_any_order(g, a.remove(n - 1), b.remove(k));
        lemma_sum_without_one(g, a, n - 1, n);
        lemma_sum_without_one(g, b, k, b.len() as int);
    }
}

/// The distance between two clusters does not depend on the order of their elements.
pub proof fn law_linkage_does_not_depend_on_order<
    T: PartialOrd + Add<Output = T> + Sub<Output = T> + Div<Output = T>,
>(
    of: spec_fn(T) -> real,
    measure: Measure<T>,
    a: Seq<usize>,
    b: Seq<usize>,
    other_a: Seq<usize>,
    other_b: Seq<usize>,
)
    requires
        measures_exactly(of, measure),
        a.len() > 0,
        b.len() > 0,
        a.len() * b.len() <= usize::MAX,
        a.to_multiset() == other_a.to_multiset(),
        b.to_multiset() == other_b.to_multiset(),
    ensures
        of(measure.linkage(a, b)) == of(measure.linkage(other_a, other_b)),
{
    let to_b = |x: usize| exact::sum(apart_from(of, measure, x, b), b.len() as int);
    let to_other = |x: usize|
        exact::sum(apart_from(of, measure, x, other_b), other_b.len() as int);
    lemma_sum_in_any_order(to_b, a, other_a);
    lemma_sum_in_any_order(|y: usize| 0real, b, other_b);
    assert forall|x: usize| #[trigger] to_b(x) == to_other(x) by {
        let from_x = |y: usize| apart(of, measure, x, y);
        lemma_sum_in_any_order(from_x, b, other_b);
        exact::lemma_sum_same(each(from_x, b), apart_from(of, measure, x, b), b.len() as int);
        exact::lemma_sum_same(
            each(from_x, other_b),
            apart_from(of, measure, x, other_b),
            b.len() as int,
        );
    }
    let n = a.len() as int;
    let ours = apart_in_all(of, measure, a, b);
    let theirs = apart_in_all(of, measure, other_a, other_b);
    assert forall|i: int| 0 <= i < n implies #[trigger] ours(i) == each(to_b, a)(i) by {}
    assert forall|i: int| 0 <= i < n implies #[trigger] theirs(i) == each(to_b, other_a)(i) by {
        assert(to_b(other_a[i]) == to_other(other_a[i]));
    }
    exact::lemma_sum_same(ours, each(to_b, a), n);
    exact::lemma_sum_same(theirs, each(to_b, other_a), n);
    law_linkage_is_the_mean_over_all_pairs(of, measure, a, b);
    law_linkage_is_the_mean_over_all_pairs(of, measure, other_a, other_b);
    let pairs = (a.len() * b.len()) as real;
    assert(a.len() * b.len() > 0) by (nonlinear_arith)
        requires
            a.len() > 0,
            b.len() > 0,
    ;
    let x = of(measure.linkage(a, b));
    let y = of(measure.linkage(other_a, other_b));
    assert(x == y) by (nonlinear_arith)
        requires
            x * pairs == y * pairs,
            pairs > 0real,
    ;
}

/// How far the elements of two clusters are from each other on average.
pub open spec fn mean_apart<T>(
    of: spec_fn(T) -> real,
    measure: Measure<T>,
    a: Seq<usize>,
    b: Seq<usize>,
) -> real {
    all_pairs(of, measure, a, b) / ((a.len() * b.len()) as real)
}

/// Of all pairs of clusters, `i` and `j` are the closest, and the first of those that
/// are equally close.
pub open spec fn is_closest<T>(
    of: spec_fn(T) -> real,
    measure: Measure<T>,
    clusters: Seq<Seq<usize>>,
    i: int,
    j: int,
) -> bool {
    let least = mean_apart(of, measure, clusters[i], clusters[j]);
    &&& 0 <= i < j < clusters.len()
    &&& forall|a: int, b: int|
        0 <= a < b < clusters.len() ==> least <= #[trigger] mean_apart(
            of,
            measure,
            clusters[a],
            clusters[b],
        )
    &&& forall|a: int, b: int|
        0 <= a < b < clusters.len() && (a < i || (a == i && b < j)) ==> least
            < #[trigger] mean_apart(of, measure, clusters[a], clusters[b])
}

/// Cluster `j` has been put behind cluster `i`; the other clusters are as they were.
pub open spec fn is_joined(
    clusters: Seq<Seq<usize>>,
    next: Seq<Seq<usize>>,
    i: int,
    j: int,
) -> bool {
    &&& next.len() == clusters.len() - 1
    &&& next[i] == clusters[i] + clusters[j]
    &&& forall|c: int| 0 <= c < j && c != i ==> #[trigger] next[c] == clusters[c]
    &&& forall|c: int| j <= c < next.len() ==> #[trigger] next[c] == clusters[c + 1]
}

/// The closest pair that is found is the closest, the first of those equally close.
proof fn lemma_nearest_is_closest<
    T: PartialOrd + Add<Output = T> + Sub<Output = T> + Div<Output = T>,
>(of: spec_fn(T) -> real, measure: Measure<T>, clusters: Seq<Seq<usize>>, i: int, j: int)
    requires
        exact::compares(of),
        forall|a: int, b: int|
            0 <= a < b < clusters.len() ==> of(
                #[trigger] measure.linkage(clusters[a], clusters[b]),
            ) < of(measure.units.largest),
        0 <= i <= clusters.len(),
        j <= clusters.len(),
    ensures
        ({
            let found = clustering::nearest_upto(measure, clusters, i, j);
            let some = any_before(clusters.len() as int, i, j);
            &&& !some ==> found.distance == measure.units.largest
            &&& some ==> {
                &&& 0 <= found.first < found.second < clusters.len()
                &&& is_before(found.first, found.second, i, j)
                &&& found.distance == measure.linkage(
                    clusters[found.first],
                    clusters[found.second],
                )
            }
            &&& forall|a: int, b: int|
                0 <= a < b < clusters.len() && #[trigger] is_before(a, b, i, j) ==> {
                    let other = of(measure.linkage(clusters[a], clusters[b]));
                    &&& of(found.distance) <= other
                    &&& a < found.first || (a == found.first && b < found.second) ==> of(
                        found.distance,
                    ) < other
                }
        }),
    decreases i, j,
{
    let n = clusters.len() as int;
    let found = clustering::nearest_upto(measure, clusters, i, j);
    if 0 <= i && j > i + 1 {
        lemma_nearest_is_closest(of, measure, clusters, i, j - 1);
        let sofar = clustering::nearest_upto(measure, clusters, i, j - 1);
        let new = measure.linkage(clusters[i], clusters[j - 1]);
        assert(of(new) < of(measure.units.largest));
        assert(is_before(i, j - 1, i, j));
        assert forall|a: int, b: int|
            0 <= a < b < clusters.len() && #[trigger] is_before(a, b, i, j) implies {
            let other = of(measure.linkage(clusters[a], clusters[b]));
            &&& of(found.distance) <= other
            &&& a < found.first || (a == found.first && b < found.second) ==> of(found.distance)
                < other
        } by {
            if !(a == i && b == j - 1) {
                assert(is_before(a, b, i, j - 1));
            }
        }
        if any_before(n, i, j - 1) {
            assert(is_before(sofar.first, sofar.second, i, j - 1));
            assert(is_before(sofar.first, sofar.second, i, j));
        }
    } else if i > 0 {
        lemma_nearest_is_closest(of, measure, clusters, i - 1, clusters.len() as int);
        assert forall|a: int, b: int| 0 <= a < b < clusters.len() implies #[trigger] is_before(
            a,
            b,
            i,
            j,
        ) == is_before(a, b, i - 1, clusters.len() as int) by {}
        if any_before(n, i, j) {
            let (a, b) = choose|a: int, b: int|
                0 <= a < b < n && #[trigger] is_before(a, b, i, j);
            assert(is_before(a, b, i - 1, n));
            assert(is_before(found.first, found.second, i, j));
        } else if any_before(n, i - 1, n) {
            let k = i - 1;
            let (a, b) = choose|a: int, b: int|
                0 <= a < b < n && #[trigger] is_before(a, b, k, n);
            assert(is_before(a, b, i, j));
        }
    } else {
        assert forall|a: int, b: int| 0 <= a < b < clusters.len() implies !(#[trigger] is_before(
            a,
            b,
            i,
            j,
        )) by {}
    }
}

/// Pair `a`, `b` has been compared when cluster `i` has been compared with those before
/// `j`.
pub open spec fn is_before(a: int, b: int, i: int, j: int) -> bool {
    a < i || (a == i && b < j)
}

/// Some pair of the `n` clusters has been compared.
pub open spec fn any_before(n: int, i: int, j: int) -> bool {
    exists|a: int, b: int| 0 <= a < b < n && #[trigger] is_before(a, b, i, j)
}

/// The closest pair of clusters is closer than the threshold and is joined; the other
/// clusters stay as they are.
pub open spec fn is_merge<T>(
    of: spec_fn(T) -> real,
    measure: Measure<T>,
    clusters: Seq<Seq<usize>>,
    next: Seq<Seq<usize>>,
) -> bool {
    exists|i: int, j: int| #[trigger]
        is_closest(of, measure, clusters, i, j) && is_joined(clusters, next, i, j) && mean_apart(
            of,
            measure,
            clusters[i],
            clusters[j],
        ) < of(measure.threshold)
}

/// No two clusters are closer than the threshold.
pub open spec fn all_apart<T>(
    of: spec_fn(T) -> real,
    measure: Measure<T>,
    clusters: Seq<Seq<usize>>,
) -> bool {
    forall|a: int, b: int|
        0 <= a < b < clusters.len() ==> #[trigger] mean_apart(
            of,
            measure,
            clusters[a],
            clusters[b],
        ) >= of(measure.threshold)
}

/// Clusters are merged step by step, the closest two each time, until no two are closer
/// than the threshold.
pub open spec fn is_merging<T>(
    of: spec_fn(T) -> real,
    measure: Measure<T>,
    history: Seq<Seq<Seq<usize>>>,
) -> bool {
    &&& history.len() > 0
    &&& forall|s: int|
        0 <= s < history.len() - 1 ==> is_merge(of, measure, #[trigger] history[s], history[s + 1])
    &&& all_apart(of, measure, history.last())
}

/// Each of `n` elements stands alone.
pub open spec fn all_alone(clusters: Seq<Seq<usize>>, n: nat) -> bool {
    &&& clusters.len() == n
    &&& forall|i: int|
        0 <= i < n ==> (#[trigger] clusters[i]).len() == 1 && clusters[i][0] == i
}

/// Element `x` is labelled `c` exactly when it is in cluster `c`.
pub open spec fn are_labels(clusters: Seq<Seq<usize>>, labels: Seq<usize>) -> bool {
    forall|x: int, c: int|
        0 <= x < labels.len() && 0 <= c < clusters.len() ==> (#[trigger] labels[x] == c
            <==> #[trigger] clusters[c].contains(x as usize))
}

proof fn lemma_few_below(s: Seq<usize>, n: nat)
    requires
        s.no_duplicates(),
        forall|k: int| 0 <= k < s.len() ==> #[trigger] s[k] < n,
    ensures
        s.len() <= n,
    decreases n,
{
    if n == 0 {
        if s.len() > 0 {
            assert(s[0] < n);
        }
    } else if exists|k: int| 0 <= k < s.len() && #[trigger] s[k] == n - 1 {
        let k = choose|k: int| 0 <= k < s.len() && #[trigger] s[k] == n - 1;
        let rest = s.remove(k);
        assert forall|l: int| 0 <= l < rest.len() implies #[trigger] rest[l] < n - 1 by {
            let m = if l < k {
                l
            } else {
                l + 1
            };
            assert(rest[l] == s[m]);
            assert(s[m] != s[k]);
        }
        assert forall|l: int, m: int| 0 <= l < rest.len() && 0 <= m < rest.len() && l != m implies
            rest[l] != rest[m] by {
            assert(rest[l] == s[if l < k { l } else { l + 1 }]);
            assert(rest[m] == s[if m < k { m } else { m + 1 }]);
        }
        lemma_few_below(rest, (n - 1) as nat);
    } else {
        assert forall|l: int| 0 <= l < s.len() implies #[trigger] s[l] < n - 1 by {
            assert(s[l] != n - 1);
        }
        lemma_few_below(s, (n - 1) as nat);
    }
}

/// A sum of `n` numbers below `c` is below `n` times `c`.
proof fn lemma_sum_of_small(f: spec_fn(int) -> real, c: real, n: int)
    requires
        n > 0,
        forall|i: int| 0 <= i < n ==> #[trigger] f(i) < c,
    ensures
        exact::sum(f, n) < (n as real) * c,
    decreases n,
{
    assert(f(n - 1) < c);
    if n > 1 {
        lemma_sum_of_small(f, c, n - 1);
        let (k, m) = ((n - 1) as real, n as real);
        assert(m * c == k * c + c) by (nonlinear_arith)
            requires
                m == k + 1real,
        ;
    } else {
        assert(exact::sum(f, 0) == 0real);
        assert(1real * c == c) by (nonlinear_arith);
    }
}

/// The distance between clusters of a partition is the average, and below the largest.
proof fn lemma_linkage_in_partition<
    T: PartialOrd + Add<Output = T> + Sub<Output = T> + Div<Output = T>,
>(
    of: spec_fn(T) -> real,
    measure: Measure<T>,
    clusters: Seq<Seq<usize>>,
    n: nat,
    c: int,
    d: int,
)
    requires
        measures_exactly(of, measure),
        clustering::partitions(clusters, n),
        n * n <= usize::MAX,
        forall|x: usize, y: usize|
            x < n && y < n ==> #[trigger] apart(of, measure, x, y) < of(measure.units.largest),
        0 <= c < clusters.len(),
        0 <= d < clusters.len(),
    ensures
        of(measure.linkage(clusters[c], clusters[d])) == mean_apart(
            of,
            measure,
            clusters[c],
            clusters[d],
        ),
        mean_apart(of, measure, clusters[c], clusters[d]) < of(measure.units.largest),
{
    let (a, b) = (clusters[c], clusters[d]);
    assert(a.len() > 0 && b.len() > 0);
    assert forall|k: int| 0 <= k < a.len() implies #[trigger] a[k] < n by {
        assert(clusters[c][k] < n);
    }
    assert forall|k: int| 0 <= k < b.len() implies #[trigger] b[k] < n by {
        assert(clusters[d][k] < n);
    }
    assert(a.no_duplicates()) by {
        assert forall|k: int, l: int| 0 <= k < a.len() && 0 <= l < a.len() && k != l implies a[k]
            != a[l] by {
            assert(clusters[c][k] != clusters[c][l]);
        }
    }
    assert(b.no_duplicates()) by {
        assert forall|k: int, l: int| 0 <= k < b.len() && 0 <= l < b.len() && k != l implies b[k]
            != b[l] by {
            assert(clusters[d][k] != clusters[d][l]);
        }
    }
    lemma_few_below(a, n);
    lemma_few_below(b, n);
    assert(0 < a.len() * b.len() <= n * n) by (nonlinear_arith)
        requires
            0 < a.len() <= n,
            0 < b.len() <= n,
    ;
    law_linkage_is_the_mean_over_all_pairs(of, measure, a, b);
    let pairs = (a.len() * b.len()) as real;
    let (mean, all) = (of(measure.linkage(a, b)), all_pairs(of, measure, a, b));
    assert(mean == all / pairs) by (nonlinear_arith)
        requires
            mean * pairs == all,
            pairs > 0real,
    ;
    let most = of(measure.units.largest);
    let (p, q) = (a.len() as real, b.len() as real);
    assert forall|i: int| 0 <= i < a.len() implies #[trigger] apart_in_all(of, measure, a, b)(i)
        < q * most by {
        let f = apart_from(of, measure, a[i], b);
        assert forall|j: int| 0 <= j < b.len() implies #[trigger] f(j) < most by {
            assert(apart(of, measure, a[i], b[j]) < most);
        }
        lemma_sum_of_small(f, most, b.len() as int);
    }
    lemma_sum_of_small(apart_in_all(of, measure, a, b), q * most, a.len() as int);
    assert(pairs == p * q) by (nonlinear_arith)
        requires
            pairs == (a.len() * b.len()) as real,
            p == a.len() as real,
            q == b.len() as real,
    ;
    assert(mean < most) by (nonlinear_arith)
        requires
            mean * pairs == all,
            all < p * (q * most),
            pairs == p * q,
            pairs > 0real,
    ;
}

/// Merging clusters to the end goes step by step.
proof fn lemma_merging<T: PartialOrd + Add<Output = T> + Sub<Output = T> + Div<Output = T>>(
    of: spec_fn(T) -> real,
    measure: Measure<T>,
    clusters: Seq<Seq<usize>>,
    n: nat,
) -> (history: Seq<Seq<Seq<usize>>>)
    requires
        measures_exactly(of, measure),
        clustering::partitions(clusters, n),
        n * n <= usize::MAX,
        forall|x: usize, y: usize|
            x < n && y < n ==> #[trigger] apart(of, measure, x, y) < of(measure.units.largest),
    ensures
        is_merging(of, measure, history),
        history[0] == clusters,
        history.last() == clustering::agglomerated(measure, clusters),
        clustering::partitions(history.last(), n),
    decreases clusters.len(),
{
    let count = clusters.len() as int;
    assert forall|a: int, b: int| 0 <= a < b < count implies of(
        #[trigger] measure.linkage(clusters[a], clusters[b]),
    ) < of(measure.units.largest) by {
        lemma_linkage_in_partition(of, measure, clusters, n, a, b);
    }
    lemma_nearest_is_closest(of, measure, clusters, count, 0);
    let found = clustering::nearest(measure, clusters);
    let (i, j) = (found.first, found.second);
    if count > 1 {
        assert(is_before(0, 1, count, 0));
        lemma_linkage_in_partition(of, measure, clusters, n, i, j);
        assert forall|a: int, b: int| 0 <= a < b < count implies mean_apart(
            of,
            measure,
            clusters[i],
            clusters[j],
        ) <= #[trigger] mean_apart(of, measure, clusters[a], clusters[b]) && ((a < i || (a == i && b
            < j)) ==> mean_apart(of, measure, clusters[i], clusters[j]) < mean_apart(
            of,
            measure,
            clusters[a],
            clusters[b],
        )) by {
            lemma_linkage_in_partition(of, measure, clusters, n, a, b);
            assert(is_before(a, b, count, 0));
        }
        assert(is_closest(of, measure, clusters, i, j));
    }
    if count > 1 && scalar::lt(found.distance, measure.threshold) {
        let next = clustering::merged(clusters, i, j);
        clustering::lemma_merged_partitions(clusters, n, i, j);
        let rest = lemma_merging(of, measure, next, n);
        let history = seq![clusters] + rest;
        assert(is_joined(clusters, next, i, j));
        assert(is_merge(of, measure, clusters, next));
        assert forall|s: int| 0 <= s < history.len() - 1 implies is_merge(
            of,
            measure,
            #[trigger] history[s],
            history[s + 1],
        ) by {
            if s > 0 {
                assert(history[s] == rest[s - 1]);
                assert(history[s + 1] == rest[s]);
                assert(is_merge(of, measure, rest[s - 1], rest[s - 1 + 1]));
            }
        }
        assert(history.last() == rest.last());
        history
    } else {
        let history = seq![clusters];
        assert(history.last() == clusters);
        history
    }
}

/// Who is given which label: the elements start alone, the closest two clusters are
/// merged as long as they are closer than the threshold on average over all pairs, and
/// two elements that end up together share the label. Labels count up in the order in
/// which they first appear.
pub proof fn law_labels_are_the_clusters_that_are_left<E, T, D, C>(
    of: spec_fn(T) -> real,
    similarity: spec_fn(int, int) -> T,
    embeddings: &[SpeakerEmbedding<E>],
    threshold: T,
    units: Units<T>,
    dot: &D,
    count_of: &C,
    labels: Vec<usize>,
) where
    T: Copy + PartialOrd + Add<Output = T> + Sub<Output = T> + Div<Output = T>,
    D: Fn(&E, &E) -> T,
    C: Fn(usize) -> T,

    requires
        exact::adds(of),
        exact::subtracts(of),
        exact::divides(of),
        exact::compares(of),
        exact::counts(of, *count_of),
        functions::steady(*count_of),
        of(units.zero) == 0real,
        of(units.one) == 1real,
        embeddings@.len() * embeddings@.len() <= usize::MAX,
        forall|a: int, b: int, s: T|
            0 <= a < embeddings@.len() && 0 <= b < embeddings@.len() && a != b
                && #[trigger] dot.ensures((&embeddings@[a].data, &embeddings@[b].data), s) ==> s
                == similarity(a, b),
        forall|a: int, b: int|
            0 <= a < embeddings@.len() && 0 <= b < embeddings@.len() ==> 1real - of(
                #[trigger] similarity(a, b),
            ) < of(units.largest),
        call_ensures(
            clustering::cluster::<E, T, D, C>,
            (embeddings, threshold, units, dot, count_of),
            labels,
        ),
    ensures
        is_grouping(of, similarity, threshold, embeddings@.len(), labels@),
{
    lemma_grouping(of, similarity, embeddings@, threshold, units, *dot, *count_of, labels@);
}

/// The elements are labelled by the clusters that merging them leaves.
pub open spec fn is_grouping<T>(
    of: spec_fn(T) -> real,
    similarity: spec_fn(int, int) -> T,
    threshold: T,
    n: nat,
    labels: Seq<usize>,
) -> bool {
    &&& labels.len() == n
    &&& exists|measure: Measure<T>, history: Seq<Seq<Seq<usize>>>|
        measure.similarity == similarity && measure.threshold == threshold && #[trigger] is_merging(
            of,
            measure,
            history,
        ) && all_alone(history[0], n) && are_labels(history.last(), labels) && (forall|x: int|
            0 <= x < n ==> #[trigger] labels[x] < history.last().len())
    &&& forall|x: int|
        0 <= x < n && #[trigger] labels[x] > 0 ==> exists|y: int|
            0 <= y < x && #[trigger] labels[y] == labels[x] - 1
}

pub proof fn lemma_grouping<E, T, D, C>(
    of: spec_fn(T) -> real,
    similarity: spec_fn(int, int) -> T,
    embeddings: Seq<SpeakerEmbedding<E>>,
    threshold: T,
    units: Units<T>,
    dot: D,
    count_of: C,
    labels: Seq<usize>,
) where
    T: PartialOrd + Add<Output = T> + Sub<Output = T> + Div<Output = T>,
    D: Fn(&E, &E) -> T,
    C: Fn(usize) -> T,

    requires
        exact::adds(of),
        exact::subtracts(of),
        exact::divides(of),
        exact::compares(of),
        exact::counts(of, count_of),
        functions::steady(count_of),
        of(units.zero) == 0real,
        of(units.one) == 1real,
        embeddings.len() * embeddings.len() <= usize::MAX,
        forall|a: int, b: int, s: T|
            0 <= a < embeddings.len() && 0 <= b < embeddings.len() && a != b
                && #[trigger] dot.ensures((&embeddings[a].data, &embeddings[b].data), s) ==> s
                == similarity(a, b),
        forall|a: int, b: int|
            0 <= a < embeddings.len() && 0 <= b < embeddings.len() ==> 1real - of(
                #[trigger] similarity(a, b),
            ) < of(units.largest),
        clustering::labels_speakers(embeddings, threshold, units, dot, count_of, labels),
    ensures
        is_grouping(of, similarity, threshold, embeddings.len(), labels),
{
    let n = embeddings.len();
    let counts = |m: usize| functions::value(count_of, m);
    let measure = Measure { similarity, counts, units, threshold };
    assert(clustering::measured_by(embeddings, threshold, units, dot, count_of, measure));
    assert(n <= usize::MAX) by (nonlinear_arith)
        requires
            n * n <= usize::MAX,
            n >= 0,
    ;
    clustering::lemma_singletons(n);
    let alone = clustering::singletons(n);
    assert forall|x: usize, y: usize| x < n && y < n implies #[trigger] apart(of, measure, x, y)
        < of(units.largest) by {
        assert(1real - of(similarity(x as int, y as int)) < of(units.largest));
    }
    let history = lemma_merging(of, measure, alone, n);
    let clusters = history.last();
    assert forall|x: int| 0 <= x < n implies #[trigger] labels[x] < clusters.len()
        && clusters[labels[x] as int].contains(x as usize) by {
        assert(clustering::holds(clusters, x));
        let (c, k) = choose|c: int, k: int|
            0 <= c < clusters.len() && 0 <= k < clusters[c].len() && (#[trigger] clusters[c][k])
                == x;
        assert(labels[clusters[c][k] as int] == c);
        assert(clusters[c].contains(x as usize));
    }
    assert forall|x: int, c: int| 0 <= x < labels.len() && 0 <= c < clusters.len() implies (
    #[trigger] labels[x] == c <==> #[trigger] clusters[c].contains(x as usize)) by {
        if clusters[c].contains(x as usize) {
            let k = choose|k: int| 0 <= k < clusters[c].len() && clusters[c][k] == x as usize;
            assert(labels[clusters[c][k] as int] == c);
        }
    }
    assert(all_alone(history[0], n));
    assert(is_merging(of, measure, history));
    assert forall|x: int| 0 <= x < n && #[trigger] labels[x] > 0 implies exists|y: int|
        0 <= y < x && #[trigger] labels[y] == labels[x] - 1 by {
        assert(clustering::given_before(labels, labels[x] - 1, x));
    }
}

/// The average of some numbers, times how many there are, is their sum.
pub proof fn law_average_is_the_sum_over_the_count<
    T: Copy + Add<Output = T> + Div<Output = T>,
>(of: spec_fn(T) -> real, values: &Vec<T>, zero: T, count: T, average: T)
    requires
        exact::adds(of),
        exact::divides(of),
        of(zero) == 0real,
        of(count) == values@.len() as real,
        values@.len() > 0,
        call_ensures(features::mean::<T>, (values, zero, count), average),
    ensures
        of(average) * (values@.len() as real) == exact::sum(
            read_all(of, values@),
            values@.len() as int,
        ),
{
    lemma_sum_of_is_a_sum(of, values@, zero, values@.len() as int);
}

} // verus!
