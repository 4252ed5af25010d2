//! Grouping voice prints by speaker.

use crate::features;
use crate::features::mean;
use crate::functions;
use crate::scalar;
use crate::types::SpeakerEmbedding;
use core::ops::{Add, Div, Sub};
use vstd::prelude::*;
#[allow(unused_imports)]
use vstd::std_specs::ops::{AddSpec, DivSpec, SubSpec};

verus! {

/// The numbers that a clustering starts from.
#[derive(Debug)]
pub struct Units<T> {
    pub zero: T,
    pub one: T,
    /// Where the search for the closest clusters starts: only a pair that is closer
    /// than this counts.
    pub largest: T,
}

impl<T: Copy> Copy for Units<T> {

}

impl<T: Copy> Clone for Units<T> {
    fn clone(&self) -> (copy: Self)
        ensures
            copy == *self,
    {
        *self
    }
}

/// The cosine distance between two embeddings, from how similar they are.
pub open spec fn distance<T: Sub<Output = T>>(
    similarity: spec_fn(int, int) -> T,
    one: T,
    a: int,
    b: int,
) -> T {
    one.sub_spec(similarity(a, b))
}

/// The distances between each element of one cluster and each element of
/// another, the elements of the first cluster in turn.
pub open spec fn pair_distances<T: Sub<Output = T>>(
    similarity: spec_fn(int, int) -> T,
    one: T,
    a: Seq<usize>,
    b: Seq<usize>,
) -> Seq<T> {
    Seq::new(
        a.len() * b.len(),
        |k: int|
            distance(similarity, one, a[k / b.len() as int] as int, b[k % b.len() as int] as int),
    )
}

/// What decides a clustering: how similar any two embeddings are, what number of
/// type `T` stands for a count, and below which distance two clusters are one
/// speaker.
#[verifier::reject_recursive_types(T)]
pub struct Measure<T> {
    pub similarity: spec_fn(int, int) -> T,
    pub counts: spec_fn(usize) -> T,
    pub units: Units<T>,
    pub threshold: T,
}

impl<T: Add<Output = T> + Sub<Output = T> + Div<Output = T>> Measure<T> {
    /// The distance between two clusters by average linkage: the mean of the
    /// distances between their elements.
    pub open spec fn linkage(self, a: Seq<usize>, b: Seq<usize>) -> T {
        let distances = pair_distances(self.similarity, self.units.one, a, b);
        features::mean_of(
            distances,
            self.units.zero,
            (self.counts)((a.len() * b.len()) as usize),
        )
    }
}

/// The closest pair of clusters met so far.
pub struct Nearest<T> {
    pub distance: T,
    pub first: int,
    pub second: int,
}

/// The closest pair after comparing each cluster before `i` with all after it,
/// and cluster `i` with those after it and before `j`. Of pairs that are equally
/// close the first counts; only a pair closer than `largest` counts at all.
pub open spec fn nearest_upto<T: PartialOrd + Add<Output = T> + Sub<Output = T> + Div<Output = T>>(
    measure: Measure<T>,
    clusters: Seq<Seq<usize>>,
    i: int,
    j: int,
) -> Nearest<T>
    decreases i, j,
{
    if 0 <= i && j > i + 1 {
        let sofar = nearest_upto(measure, clusters, i, j - 1);
        let found = measure.linkage(clusters[i], clusters[j - 1]);
        if scalar::lt(found, sofar.distance) {
            Nearest { distance: found, first: i, second: j - 1 }
        } else {
            sofar
        }
    } else if i > 0 {
        nearest_upto(measure, clusters, i - 1, clusters.len() as int)
    } else {
        Nearest { distance: measure.units.largest, first: 0, second: 0 }
    }
}

/// The closest pair of clusters.
pub open spec fn nearest<T: PartialOrd + Add<Output = T> + Sub<Output = T> + Div<Output = T>>(
    measure: Measure<T>,
    clusters: Seq<Seq<usize>>,
) -> Nearest<T> {
    nearest_upto(measure, clusters, clusters.len() as int, 0)
}

/// The clusters after the elements of cluster `j` have been taken out and put
/// behind those of the cluster that then stands at `i`.
pub open spec fn merged(clusters: Seq<Seq<usize>>, i: int, j: int) -> Seq<Seq<usize>> {
    let rest = clusters.remove(j);
    rest.update(i, rest[i] + clusters[j])
}

/// The clusters after merging the closest pair, again and again, while it is
/// closer than the threshold.
pub open spec fn agglomerated<T: PartialOrd + Add<Output = T> + Sub<Output = T> + Div<Output = T>>(
    measure: Measure<T>,
    clusters: Seq<Seq<usize>>,
) -> Seq<Seq<usize>>
    decreases clusters.len(),
    via agglomerated_decreases::<T>
{
    let pair = nearest(measure, clusters);
    if clusters.len() > 1 && scalar::lt(pair.distance, measure.threshold) {
        agglomerated(measure, merged(clusters, pair.first, pair.second))
    } else {
        clusters
    }
}

#[via_fn]
proof fn agglomerated_decreases<
    T: PartialOrd + Add<Output = T> + Sub<Output = T> + Div<Output = T>,
>(
    measure: Measure<T>,
    clusters: Seq<Seq<usize>>,
) {
    if clusters.len() > 1 {
        lemma_nearest_in_range(measure, clusters, clusters.len() as int, 0);
    }
}

proof fn lemma_nearest_in_range<
    T: PartialOrd + Add<Output = T> + Sub<Output = T> + Div<Output = T>,
>(
    measure: Measure<T>,
    clusters: Seq<Seq<usize>>,
    i: int,
    j: int,
)
    requires
        clusters.len() > 1,
        0 <= i <= clusters.len(),
        j <= clusters.len(),
    ensures
        0 <= nearest_upto(measure, clusters, i, j).first < clusters.len() - 1,
        0 <= nearest_upto(measure, clusters, i, j).second < clusters.len(),
        nearest_upto(measure, clusters, i, j).first == 0 || nearest_upto(
            measure,
            clusters,
            i,
            j,
        ).first < nearest_upto(measure, clusters, i, j).second,
    decreases i, j,
{
    if j > i + 1 {
        lemma_nearest_in_range(measure, clusters, i, j - 1);
    } else if i > 0 {
        lemma_nearest_in_range(measure, clusters, i - 1, clusters.len() as int);
    }
}

/// Each of `n` elements in a cluster of its own.
pub open spec fn singletons(n: nat) -> Seq<Seq<usize>> {
    Seq::new(n, |i: int| seq![i as usize])
}

/// Each element is labelled with the index of its cluster.
pub open spec fn labelled(clusters: Seq<Seq<usize>>, labels: Seq<usize>) -> bool {
    forall|c: int, k: int|
        0 <= c < clusters.len() && 0 <= k < clusters[c].len() ==> labels[(
        #[trigger] clusters[c][k]) as int] == c
}

/// The clusters are not empty, and every element below `n` is in one of them and
/// in one place only.
pub open spec fn partitions(clusters: Seq<Seq<usize>>, n: nat) -> bool {
    &&& forall|c: int| 0 <= c < clusters.len() ==> (#[trigger] clusters[c]).len() > 0
    &&& forall|c: int, k: int|
        0 <= c < clusters.len() && 0 <= k < clusters[c].len() ==> (#[trigger] clusters[c][k]) < n
    &&& forall|x: int| 0 <= x < n ==> #[trigger] holds(clusters, x)
    &&& forall|c: int, k: int, d: int, l: int|
        0 <= c < clusters.len() && 0 <= k < clusters[c].len() && 0 <= d < clusters.len() && 0 <= l
            < clusters[d].len() && (#[trigger] clusters[c][k]) == (#[trigger] clusters[d][l]) ==> c
            == d && k == l
}

/// Element `x` is in a cluster.
pub open spec fn holds(clusters: Seq<Seq<usize>>, x: int) -> bool {
    exists|c: int, k: int|
        0 <= c < clusters.len() && 0 <= k < clusters[c].len() && (#[trigger] clusters[c][k]) == x
}

pub proof fn lemma_singletons(n: nat)
    requires
        n <= usize::MAX,
    ensures
        partitions(singletons(n), n),
{
    let all = singletons(n);
    assert forall|x: int| 0 <= x < n implies #[trigger] holds(all, x) by {
        assert(all[x][0] == x);
    }
}

pub proof fn lemma_merged_partitions(clusters: Seq<Seq<usize>>, n: nat, i: int, j: int)
    requires
        partitions(clusters, n),
        0 <= i < clusters.len() - 1,
        0 <= j < clusters.len(),
    ensures
        partitions(merged(clusters, i, j), n),
{
    let after = merged(clusters, i, j);
    let rest = clusters.remove(j);
    // Where cluster `c` of `rest` stood before.
    let from = |c: int| if c < j { c } else { c + 1 };
    assert forall|x: int| 0 <= x < n implies #[trigger] holds(after, x) by {
        assert(holds(clusters, x));
        let (c, k) = choose|c: int, k: int|
            0 <= c < clusters.len() && 0 <= k < clusters[c].len() && (#[trigger] clusters[c][k])
                == x;
        if c == j {
            assert(after[i][rest[i].len() + k] == x);
        } else {
            let d = if c < j { c } else { c - 1 };
            assert(rest[d] == clusters[c]);
            assert(after[d][k] == x);
        }
    }
    assert forall|c: int, k: int|
        0 <= c < after.len() && 0 <= k < after[c].len() implies (#[trigger] after[c][k]) < n by {
        lemma_merged_origin(clusters, i, j, c, k);
    }
    assert forall|c: int, k: int, d: int, l: int|
        0 <= c < after.len() && 0 <= k < after[c].len() && 0 <= d < after.len() && 0 <= l
            < after[d].len() && (#[trigger] after[c][k]) == (#[trigger] after[d][l]) implies c == d
        && k == l by {
        lemma_merged_origin(clusters, i, j, c, k);
        lemma_merged_origin(clusters, i, j, d, l);
    }
    assert forall|c: int| 0 <= c < after.len() implies (#[trigger] after[c]).len() > 0 by {
        assert(rest[c] == clusters[from(c)]);
    }
}

/// Where an element of the merged clusters stood before.
spec fn origin(clusters: Seq<Seq<usize>>, i: int, j: int, c: int, k: int) -> (int, int) {
    let rest = clusters.remove(j);
    if c == i && k >= rest[i].len() {
        (j, k - rest[i].len())
    } else if c < j {
        (c, k)
    } else {
        (c + 1, k)
    }
}

proof fn lemma_merged_origin(clusters: Seq<Seq<usize>>, i: int, j: int, c: int, k: int)
    requires
        0 <= i < clusters.len() - 1,
        0 <= j < clusters.len(),
        0 <= c < clusters.len() - 1,
        0 <= k < merged(clusters, i, j)[c].len(),
    ensures
        0 <= origin(clusters, i, j, c, k).0 < clusters.len(),
        0 <= origin(clusters, i, j, c, k).1 < clusters[origin(clusters, i, j, c, k).0].len(),
        merged(clusters, i, j)[c][k] == clusters[origin(clusters, i, j, c, k).0][origin(
            clusters,
            i,
            j,
            c,
            k,
        ).1],
{
    let rest = clusters.remove(j);
    assert(rest[c] == clusters[if c < j { c } else { c + 1 }]);
}

/// A cluster has an element below `x`.
pub open spec fn reaches_below(cluster: Seq<usize>, x: usize) -> bool {
    exists|k: int| 0 <= k < cluster.len() && #[trigger] cluster[k] < x
}

/// Clusters come in the order of their least elements: whatever is in a cluster,
/// each cluster before it has something less.
pub open spec fn by_least(clusters: Seq<Seq<usize>>) -> bool {
    forall|c: int, d: int, l: int|
        0 <= c < d < clusters.len() && 0 <= l < clusters[d].len() ==> #[trigger] reaches_below(
            clusters[c],
            clusters[d][l],
        )
}

proof fn lemma_singletons_by_least(n: nat)
    requires
        n <= usize::MAX,
    ensures
        by_least(singletons(n)),
{
    let all = singletons(n);
    assert forall|c: int, d: int, l: int|
        0 <= c < d < all.len() && 0 <= l < all[d].len() implies #[trigger] reaches_below(
        all[c],
        all[d][l],
    ) by {
        assert(all[c][0] < all[d][l]);
    }
}

proof fn lemma_merged_by_least(clusters: Seq<Seq<usize>>, i: int, j: int)
    requires
        by_least(clusters),
        0 <= i < clusters.len() - 1,
        0 <= j < clusters.len(),
        i == 0 || i < j,
    ensures
        by_least(merged(clusters, i, j)),
{
    let after = merged(clusters, i, j);
    let rest = clusters.remove(j);
    assert forall|c: int, d: int, l: int|
        0 <= c < d < after.len() && 0 <= l < after[d].len() implies #[trigger] reaches_below(
        after[c],
        after[d][l],
    ) by {
        let x = after[d][l];
        let from = if c < j { c } else { c + 1 };
        assert(rest[c] == clusters[from]);
        lemma_merged_origin(clusters, i, j, d, l);
        let (e, m) = origin(clusters, i, j, d, l);
        assert(clusters[e][m] == x);
        assert(from < e);
        assert(reaches_below(clusters[from], clusters[e][m]));
        let k = choose|k: int| 0 <= k < rest[c].len() && #[trigger] rest[c][k] < x;
        assert(after[c][k] == rest[c][k]);
    }
}

/// A label has been given to an element before `x`.
pub open spec fn given_before(labels: Seq<usize>, label: int, x: int) -> bool {
    exists|y: int| 0 <= y < x && #[trigger] labels[y] == label
}

/// Labels are numbered in the order in which they first appear.
pub open spec fn numbered_by_appearance(labels: Seq<usize>) -> bool {
    forall|x: int|
        0 <= x < labels.len() && #[trigger] labels[x] > 0 ==> given_before(
            labels,
            labels[x] - 1,
            x,
        )
}

proof fn lemma_numbered(clusters: Seq<Seq<usize>>, labels: Seq<usize>, n: nat)
    requires
        partitions(clusters, n),
        labelled(clusters, labels),
        by_least(clusters),
        labels.len() == n,
    ensures
        numbered_by_appearance(labels),
{
    assert forall|x: int| 0 <= x < labels.len() && #[trigger] labels[x] > 0 implies given_before(
        labels,
        labels[x] - 1,
        x,
    ) by {
        assert(holds(clusters, x));
        let (d, l) = choose|d: int, l: int|
            0 <= d < clusters.len() && 0 <= l < clusters[d].len() && (#[trigger] clusters[d][l])
                == x;
        assert(labels[clusters[d][l] as int] == d);
        assert(reaches_below(clusters[d - 1], clusters[d][l]));
        let k = choose|k: int|
            0 <= k < clusters[d - 1].len() && #[trigger] clusters[d - 1][k] < clusters[d][l];
        assert(labels[clusters[d - 1][k] as int] == d - 1);
    }
}

/// However often clusters are merged, every element stays in exactly one of them.
pub proof fn law_agglomerating_keeps_a_partition<
    T: PartialOrd + Add<Output = T> + Sub<Output = T> + Div<Output = T>,
>(
    measure: Measure<T>,
    clusters: Seq<Seq<usize>>,
    n: nat,
)
    requires
        partitions(clusters, n),
    ensures
        partitions(agglomerated(measure, clusters), n),
        agglomerated(measure, clusters).len() <= clusters.len(),
    decreases clusters.len(),
{
    let pair = nearest(measure, clusters);
    if clusters.len() > 1 && scalar::lt(pair.distance, measure.threshold) {
        lemma_nearest_in_range(measure, clusters, clusters.len() as int, 0);
        lemma_merged_partitions(clusters, n, pair.first, pair.second);
        law_agglomerating_keeps_a_partition(measure, merged(clusters, pair.first, pair.second), n);
    }
}

/// `dot` and `count_of` compute what the measure names, for these embeddings, and
/// the measure has these units and this threshold.
pub open spec fn measured_by<E, T, D: Fn(&E, &E) -> T, C: Fn(usize) -> T>(
    embeddings: Seq<SpeakerEmbedding<E>>,
    threshold: T,
    units: Units<T>,
    dot: D,
    count_of: C,
    measure: Measure<T>,
) -> bool {
    &&& measure.threshold == threshold
    &&& measure.units == units
    &&& forall|a: int, b: int, s: T|
        0 <= a < embeddings.len() && 0 <= b < embeddings.len() && a != b && #[trigger] dot.ensures(
            (&embeddings[a].data, &embeddings[b].data),
            s,
        ) ==> s == (measure.similarity)(a, b)
    &&& forall|n: usize, c: T| #[trigger]
        count_of.ensures((n,), c) ==> c == (measure.counts)(n)
}

/// `d` may be the distance between embeddings `a` and `b`.
pub open spec fn may_be_apart<E, T: Sub<Output = T>, D: Fn(&E, &E) -> T>(
    embeddings: Seq<SpeakerEmbedding<E>>,
    one: T,
    dot: D,
    a: int,
    b: int,
    d: T,
) -> bool {
    exists|s: T| #[trigger]
        dot.ensures((&embeddings[a].data, &embeddings[b].data), s) && d == one.sub_spec(s)
}

/// These may be the first of the distances between the elements of two clusters.
pub open spec fn may_spread<E, T: Sub<Output = T>, D: Fn(&E, &E) -> T>(
    embeddings: Seq<SpeakerEmbedding<E>>,
    one: T,
    dot: D,
    a: Seq<usize>,
    b: Seq<usize>,
    distances: Seq<T>,
) -> bool {
    forall|k: int|
        0 <= k < distances.len() ==> may_be_apart(
            embeddings,
            one,
            dot,
            a[k / b.len() as int] as int,
            b[k % b.len() as int] as int,
            #[trigger] distances[k],
        )
}

/// Two clusters of elements below `n` that have no element in common.
pub open spec fn separate(a: Seq<usize>, b: Seq<usize>, n: nat) -> bool {
    &&& a.len() > 0
    &&& b.len() > 0
    &&& a.no_duplicates()
    &&& b.no_duplicates()
    &&& forall|k: int| 0 <= k < a.len() ==> #[trigger] a[k] < n
    &&& forall|k: int| 0 <= k < b.len() ==> #[trigger] b[k] < n
    &&& forall|k: int, l: int|
        0 <= k < a.len() && 0 <= l < b.len() ==> #[trigger] a[k] != #[trigger] b[l]
}

/// These may be the distances between the elements of two separate clusters.
pub open spec fn are_distances<E, T: Sub<Output = T>, D: Fn(&E, &E) -> T>(
    embeddings: Seq<SpeakerEmbedding<E>>,
    one: T,
    dot: D,
    a: Seq<usize>,
    b: Seq<usize>,
    distances: Seq<T>,
) -> bool {
    &&& separate(a, b, embeddings.len())
    &&& distances.len() == a.len() * b.len()
    &&& may_spread(embeddings, one, dot, a, b, distances)
}

/// `dot` can be called on any two of these embeddings, `count_of` on any count
/// above 0, and averaging the distances between two clusters stays within `T`.
pub open spec fn computable<E, T, D, C>(
    embeddings: Seq<SpeakerEmbedding<E>>,
    units: Units<T>,
    dot: D,
    count_of: C,
) -> bool
    where
        T: Add<Output = T> + Sub<Output = T> + Div<Output = T>,
        D: Fn(&E, &E) -> T,
        C: Fn(usize) -> T,
{
    &&& forall|a: int, b: int|
        0 <= a < embeddings.len() && 0 <= b < embeddings.len() && a != b
            ==> #[trigger] dot.requires((&embeddings[a].data, &embeddings[b].data))
    &&& forall|a: int, b: int, s: T|
        0 <= a < embeddings.len() && 0 <= b < embeddings.len() && a != b && #[trigger] dot.ensures(
            (&embeddings[a].data, &embeddings[b].data),
            s,
        ) ==> units.one.sub_req(s)
    &&& forall|n: usize| n > 0 ==> #[trigger] count_of.requires((n,))
    &&& forall|a: Seq<usize>, b: Seq<usize>, distances: Seq<T>, count: T|
        #![trigger are_distances(embeddings, units.one, dot, a, b, distances), count_of.ensures(
            (distances.len() as usize,),
            count,
        )]
        are_distances(embeddings, units.one, dot, a, b, distances) && count_of.ensures(
            (distances.len() as usize,),
            count,
        ) ==> features::mean_fits(distances, units.zero, count)
}

/// The clusters as sequences.
pub open spec fn contents(clusters: Seq<Vec<usize>>) -> Seq<Seq<usize>> {
    clusters.map_values(|c: Vec<usize>| c@)
}

/// The average-linkage distance between two clusters.
fn linkage_between<E, T, D, C>(
    embeddings: &[SpeakerEmbedding<E>],
    a: &Vec<usize>,
    b: &Vec<usize>,
    Ghost(threshold): Ghost<T>,
    units: Units<T>,
    dot: &D,
    count_of: &C,
) -> (found: T)
    where
        T: Copy + Add<Output = T> + Sub<Output = T> + Div<Output = T>,
        D: Fn(&E, &E) -> T,
        C: Fn(usize) -> T,

    requires
        T::obeys_add_spec(),
        T::obeys_sub_spec(),
        T::obeys_div_spec(),
        computable(embeddings@, units, *dot, *count_of),
        separate(a@, b@, embeddings@.len()),
    ensures
        forall|measure: Measure<T>| #[trigger]
            measured_by(embeddings@, threshold, units, *dot, *count_of, measure) ==> found
                == measure.linkage(a@, b@),
{
    let one: T = units.one;
    let mut distances: Vec<T> = Vec::new();
    let mut i: usize = 0;
    proof {
        assert forall|measure: Measure<T>| #[trigger]
            measured_by(
                embeddings@,
                threshold,
                units,
                *dot,
                *count_of,
                measure,
            ) implies prefix_of(distances@, measure, a@, b@) by {
            assert(a@.len() * b@.len() >= 0) by (nonlinear_arith);
            assert(distances@ =~= pair_distances(measure.similarity, one, a@, b@).take(0));
        }
    }
    while i < a.len()
        invariant
            i <= a@.len(),
            one == units.one,
            T::obeys_sub_spec(),
            computable(embeddings@, units, *dot, *count_of),
            separate(a@, b@, embeddings@.len()),
            distances@.len() == i * b@.len(),
            may_spread(embeddings@, one, *dot, a@, b@, distances@),
            forall|measure: Measure<T>| #[trigger]
                measured_by(embeddings@, threshold, units, *dot, *count_of, measure)
                    ==> prefix_of(distances@, measure, a@, b@),
        decreases a@.len() - i,
    {
        let mut j: usize = 0;
        while j < b.len()
            invariant
                i < a@.len(),
                j <= b@.len(),
                one == units.one,
                T::obeys_sub_spec(),
                computable(embeddings@, units, *dot, *count_of),
                separate(a@, b@, embeddings@.len()),
                distances@.len() == i * b@.len() + j,
                may_spread(embeddings@, one, *dot, a@, b@, distances@),
                forall|measure: Measure<T>| #[trigger]
                    measured_by(embeddings@, threshold, units, *dot, *count_of, measure)
                        ==> prefix_of(distances@, measure, a@, b@),
            decreases b@.len() - j,
        {
            let ghost sofar = distances@;
            let x: usize = a[i];
            let y: usize = b[j];
            let similarity: T = dot(&embeddings[x].data, &embeddings[y].data);
            let apart: T = one - similarity;
            distances.push(apart);
            proof {
                assert(dot.ensures(
                    (&embeddings@[x as int].data, &embeddings@[y as int].data),
                    similarity,
                ));
                assert(may_be_apart(embeddings@, one, *dot, x as int, y as int, apart));
                vstd::arithmetic::div_mod::lemma_fundamental_div_mod_converse(
                    sofar.len() as int,
                    b@.len() as int,
                    i as int,
                    j as int,
                );
                assert forall|measure: Measure<T>| #[trigger]
                    measured_by(
                        embeddings@,
                        threshold,
                        units,
                        *dot,
                        *count_of,
                        measure,
                    ) implies prefix_of(distances@, measure, a@, b@) by {
                    assert(prefix_of(sofar, measure, a@, b@));
                    lemma_next_pair(sofar, distances@, measure, a@, b@, i as int, j as int);
                }
            }
            j = j + 1;
        }
        i = i + 1;
        proof {
            assert(distances@.len() == i * b@.len()) by (nonlinear_arith)
                requires
                    distances@.len() == (i - 1) * b@.len() + b@.len(),
            ;
        }
    }
    proof {
        assert(distances@.len() > 0) by (nonlinear_arith)
            requires
                distances@.len() == a@.len() * b@.len(),
                a@.len() > 0,
                b@.len() > 0,
        ;
        assert(are_distances(embeddings@, one, *dot, a@, b@, distances@));
    }
    let count: T = count_of(distances.len());
    proof {
        assert(count_of.ensures((distances@.len() as usize,), count));
    }
    let found: T = mean(&distances, units.zero, count);
    proof {
        assert forall|measure: Measure<T>| #[trigger]
            measured_by(
                embeddings@,
                threshold,
                units,
                *dot,
                *count_of,
                measure,
            ) implies found == measure.linkage(a@, b@) by {
            assert(prefix_of(distances@, measure, a@, b@));
            assert(distances@ =~= pair_distances(measure.similarity, one, a@, b@));
            assert(count_of.ensures((distances.len(),), count));
        }
    }
    found
}

/// These are the first of the distances between two clusters.
spec fn prefix_of<T: Sub<Output = T>>(
    distances: Seq<T>,
    measure: Measure<T>,
    a: Seq<usize>,
    b: Seq<usize>,
) -> bool {
    &&& distances.len() <= a.len() * b.len()
    &&& distances == pair_distances(measure.similarity, measure.units.one, a, b).take(
        distances.len() as int,
    )
}

proof fn lemma_next_pair<T: Sub<Output = T>>(
    sofar: Seq<T>,
    distances: Seq<T>,
    measure: Measure<T>,
    a: Seq<usize>,
    b: Seq<usize>,
    i: int,
    j: int,
)
    requires
        prefix_of(sofar, measure, a, b),
        0 <= i < a.len(),
        0 <= j < b.len(),
        sofar.len() == i * b.len() + j,
        distances == sofar.push(
            distance(measure.similarity, measure.units.one, a[i] as int, b[j] as int),
        ),
    ensures
        prefix_of(distances, measure, a, b),
{
    let k = sofar.len() as int;
    let width = b.len() as int;
    assert(i * width + j < a.len() * width) by (nonlinear_arith)
        requires
            0 <= i < a.len(),
            0 <= j < width,
    ;
    vstd::arithmetic::div_mod::lemma_fundamental_div_mod_converse(k, width, i, j);
    let all = pair_distances(measure.similarity, measure.units.one, a, b);
    assert(all[k] == distances[k]);
    assert(distances =~= all.take(k + 1));
}

/// Any two clusters of a partition are separate.
proof fn lemma_separate(clusters: Seq<Seq<usize>>, n: nat, c: int, d: int)
    requires
        partitions(clusters, n),
        0 <= c < clusters.len(),
        0 <= d < clusters.len(),
        c != d,
    ensures
        separate(clusters[c], clusters[d], n),
{
    let a = clusters[c];
    let b = clusters[d];
    assert forall|k: int| 0 <= k < a.len() implies #[trigger] a[k] < n by {
        assert(clusters[c][k] < n);
    }
    assert forall|k: int| 0 <= k < b.len() implies #[trigger] b[k] < n by {
        assert(clusters[d][k] < n);
    }
    assert forall|k: int, l: int| 0 <= k < a.len() && 0 <= l < b.len() implies #[trigger] a[k]
        != #[trigger] b[l] by {
        assert(clusters[c][k] != clusters[d][l]);
    }
    assert forall|k: int, l: int| 0 <= k < a.len() && 0 <= l < a.len() && k != l implies a[k]
        != a[l] by {
        assert(clusters[c][k] != clusters[c][l]);
    }
    assert forall|k: int, l: int| 0 <= k < b.len() && 0 <= l < b.len() && k != l implies b[k]
        != b[l] by {
        assert(clusters[d][k] != clusters[d][l]);
    }
}

/// `distance`, `first` and `second` are what a measure finds to be nearest.
spec fn is_nearest<T>(found: Nearest<T>, distance: T, first: usize, second: usize) -> bool {
    found.distance == distance && found.first == first && found.second == second
}

/// Finds the closest pair of clusters.
fn find_nearest<E, T, D, C>(
    embeddings: &[SpeakerEmbedding<E>],
    clusters: &Vec<Vec<usize>>,
    Ghost(threshold): Ghost<T>,
    units: Units<T>,
    dot: &D,
    count_of: &C,
) -> (pair: (T, usize, usize))
    where
        T: Copy + PartialOrd + Add<Output = T> + Sub<Output = T> + Div<Output = T>,
        D: Fn(&E, &E) -> T,
        C: Fn(usize) -> T,

    requires
        scalar::ordered::<T>(),
        T::obeys_add_spec(),
        T::obeys_sub_spec(),
        T::obeys_div_spec(),
        computable(embeddings@, units, *dot, *count_of),
        clusters@.len() > 1,
        partitions(contents(clusters@), embeddings@.len()),
    ensures
        pair.1 < clusters@.len() - 1,
        pair.2 < clusters@.len(),
        pair.1 == 0 || pair.1 < pair.2,
        forall|measure: Measure<T>| #[trigger]
            measured_by(embeddings@, threshold, units, *dot, *count_of, measure) ==> is_nearest(
                nearest(measure, contents(clusters@)),
                pair.0,
                pair.1,
                pair.2,
            ),
{
    let ghost sets = contents(clusters@);
    let count: usize = clusters.len();
    let mut closest: T = units.largest;
    let mut first: usize = 0;
    let mut second: usize = 0;
    let mut i: usize = 0;
    while i < count
        invariant
            i <= count,
            count == clusters@.len(),
            sets == contents(clusters@),
            scalar::ordered::<T>(),
            T::obeys_add_spec(),
            T::obeys_sub_spec(),
            T::obeys_div_spec(),
            computable(embeddings@, units, *dot, *count_of),
            count > 1,
            partitions(sets, embeddings@.len()),
            first < count - 1,
            second < count,
            first == 0 || first < second,
            forall|measure: Measure<T>| #[trigger]
                measured_by(embeddings@, threshold, units, *dot, *count_of, measure)
                    ==> is_nearest(
                    nearest_upto(measure, sets, i as int, 0),
                    closest,
                    first,
                    second,
                ),
        decreases count - i,
    {
        let mut j: usize = i + 1;
        proof {
            assert forall|measure: Measure<T>| #[trigger]
                measured_by(
                    embeddings@,
                    threshold,
                    units,
                    *dot,
                    *count_of,
                    measure,
                ) implies is_nearest(
                nearest_upto(measure, sets, i as int, j as int),
                closest,
                first,
                second,
            ) by {
                assert(nearest_upto(measure, sets, i as int, j as int) == nearest_upto(
                    measure,
                    sets,
                    i as int,
                    0,
                ));
            }
        }
        while j < count
            invariant
                i < j <= count,
                count == clusters@.len(),
                sets == contents(clusters@),
                scalar::ordered::<T>(),
                T::obeys_add_spec(),
                T::obeys_sub_spec(),
                T::obeys_div_spec(),
                computable(embeddings@, units, *dot, *count_of),
                partitions(sets, embeddings@.len()),
                first < count - 1,
                second < count,
                first == 0 || first < second,
                forall|measure: Measure<T>| #[trigger]
                    measured_by(embeddings@, threshold, units, *dot, *count_of, measure)
                        ==> is_nearest(
                        nearest_upto(measure, sets, i as int, j as int),
                        closest,
                        first,
                        second,
                    ),
            decreases count - j,
        {
            proof {
                assert(sets[i as int] == clusters@[i as int]@);
                assert(sets[j as int] == clusters@[j as int]@);
                lemma_separate(sets, embeddings@.len(), i as int, j as int);
            }
            let found: T = linkage_between(
                embeddings,
                &clusters[i],
                &clusters[j],
                Ghost(threshold),
                units,
                dot,
                count_of,
            );
            let ghost before = (closest, first, second);
            if found < closest {
                closest = found;
                first = i;
                second = j;
            }
            proof {
                assert forall|measure: Measure<T>| #[trigger]
                    measured_by(
                        embeddings@,
                        threshold,
                        units,
                        *dot,
                        *count_of,
                        measure,
                    ) implies is_nearest(
                    nearest_upto(measure, sets, i as int, j + 1),
                    closest,
                    first,
                    second,
                ) by {
                    assert(is_nearest(
                        nearest_upto(measure, sets, i as int, j as int),
                        before.0,
                        before.1,
                        before.2,
                    ));
                    assert(found == measure.linkage(sets[i as int], sets[j as int]));
                }
            }
            j = j + 1;
        }
        i = i + 1;
        proof {
            assert forall|measure: Measure<T>| #[trigger]
                measured_by(
                    embeddings@,
                    threshold,
                    units,
                    *dot,
                    *count_of,
                    measure,
                ) implies is_nearest(
                nearest_upto(measure, sets, i as int, 0),
                closest,
                first,
                second,
            ) by {
                assert(nearest_upto(measure, sets, i as int, 0) == nearest_upto(
                    measure,
                    sets,
                    i - 1,
                    count as int,
                ));
            }
        }
    }
    (closest, first, second)
}

/// The labels of a clustering: one for each embedding, and each the index of the
/// cluster that the embedding is in when merging ends. They are numbered in the
/// order in which they first appear.
pub open spec fn labels_speakers<E, T, D, C>(
    embeddings: Seq<SpeakerEmbedding<E>>,
    threshold: T,
    units: Units<T>,
    dot: D,
    count_of: C,
    labels: Seq<usize>,
) -> bool
    where
        T: PartialOrd + Add<Output = T> + Sub<Output = T> + Div<Output = T>,
        D: Fn(&E, &E) -> T,
        C: Fn(usize) -> T,
{
    &&& labels.len() == embeddings.len()
    &&& exists|clusters: Seq<Seq<usize>>|
        partitions(clusters, embeddings.len()) && #[trigger] labelled(clusters, labels)
    &&& numbered_by_appearance(labels)
    &&& forall|measure: Measure<T>| #[trigger]
        measured_by(embeddings, threshold, units, dot, count_of, measure) ==> labelled(
            agglomerated(measure, singletons(embeddings.len())),
            labels,
        )
}

/// Groups embeddings by speaker and gives the label of each, by agglomerative
/// clustering with average linkage on the cosine distance: one minus the
/// similarity that `dot` tells.
///
/// Each embedding starts in a cluster of its own. While the closest pair of
/// clusters is closer than `threshold`, the later of the two is merged into the
/// earlier. `count_of` turns a count into a number of type `T`.
pub fn cluster<E, T, D, C>(
    embeddings: &[SpeakerEmbedding<E>],
    threshold: T,
    units: Units<T>,
    dot: &D,
    count_of: &C,
) -> (labels: Vec<usize>)
    where
        T: Copy + PartialOrd + Add<Output = T> + Sub<Output = T> + Div<Output = T>,
        D: Fn(&E, &E) -> T,
        C: Fn(usize) -> T,

    requires
        scalar::ordered::<T>(),
        T::obeys_add_spec(),
        T::obeys_sub_spec(),
        T::obeys_div_spec(),
        computable(embeddings@, units, *dot, *count_of),
    ensures
        labels_speakers(embeddings@, threshold, units, *dot, *count_of, labels@),
{
    let n: usize = embeddings.len();
    let mut clusters: Vec<Vec<usize>> = Vec::new();
    let mut next: usize = 0;
    while next < n
        invariant
            next <= n,
            clusters@.len() == next,
            contents(clusters@) == singletons(next as nat),
        decreases n - next,
    {
        let mut single: Vec<usize> = Vec::new();
        single.push(next);
        let ghost earlier = clusters@;
        let ghost alone = single;
        proof {
            assert(alone@ =~= seq![next]);
        }
        clusters.push(single);
        proof {
            assert forall|k: int| 0 <= k <= next implies contents(clusters@)[k] == singletons(
                next as nat + 1,
            )[k] by {
                if k < next {
                    assert(contents(earlier)[k] == singletons(next as nat)[k]);
                } else {
                    assert(clusters@[k] == alone);
                }
            }
            assert(contents(clusters@) =~= singletons(next as nat + 1));
        }
        next = next + 1;
    }
    proof {
        lemma_singletons(n as nat);
        lemma_singletons_by_least(n as nat);
    }
    let ghost start = singletons(n as nat);
    let mut merging: bool = true;
    while merging && clusters.len() > 1
        invariant
            start == singletons(n as nat),
            n == embeddings@.len(),
            scalar::ordered::<T>(),
            T::obeys_add_spec(),
            T::obeys_sub_spec(),
            T::obeys_div_spec(),
            computable(embeddings@, units, *dot, *count_of),
            partitions(contents(clusters@), n as nat),
            by_least(contents(clusters@)),
            forall|measure: Measure<T>| #[trigger]
                measured_by(embeddings@, threshold, units, *dot, *count_of, measure)
                    ==> agglomerated(measure, start) == agglomerated(measure, contents(clusters@)),
            !merging ==> forall|measure: Measure<T>| #[trigger]
                measured_by(embeddings@, threshold, units, *dot, *count_of, measure)
                    ==> agglomerated(measure, start) == contents(clusters@),
        decreases clusters@.len(), merging as int,
    {
        let ghost sets = contents(clusters@);
        let (closest, first, second): (T, usize, usize) = find_nearest(
            embeddings,
            &clusters,
            Ghost(threshold),
            units,
            dot,
            count_of,
        );
        if closest < threshold {
            let mut elements: Vec<usize> = clusters.remove(second);
            let ghost rest = clusters@;
            let ghost moved = elements@;
            clusters[first].append(&mut elements);
            proof {
                assert(clusters@[first as int]@ == rest[first as int]@ + moved);
                assert(contents(clusters@) =~= merged(sets, first as int, second as int));
                lemma_merged_partitions(sets, n as nat, first as int, second as int);
                lemma_merged_by_least(sets, first as int, second as int);
                assert forall|measure: Measure<T>| #[trigger]
                    measured_by(
                        embeddings@,
                        threshold,
                        units,
                        *dot,
                        *count_of,
                        measure,
                    ) implies agglomerated(measure, start) == agglomerated(
                    measure,
                    contents(clusters@),
                ) by {
                    assert(is_nearest(nearest(measure, sets), closest, first, second));
                }
            }
        } else {
            merging = false;
            proof {
                assert forall|measure: Measure<T>| #[trigger]
                    measured_by(
                        embeddings@,
                        threshold,
                        units,
                        *dot,
                        *count_of,
                        measure,
                    ) implies agglomerated(measure, start) == contents(clusters@) by {
                    assert(is_nearest(nearest(measure, sets), closest, first, second));
                }
            }
        }
    }
    let ghost sets = contents(clusters@);
    let labels: Vec<usize> = label_all(&clusters, n);
    proof {
        assert(partitions(sets, n as nat) && labelled(sets, labels@));
        lemma_numbered(sets, labels@, n as nat);
    }
    labels
}

/// Gives each element the index of its cluster.
fn label_all(clusters: &Vec<Vec<usize>>, n: usize) -> (labels: Vec<usize>)
    requires
        partitions(contents(clusters@), n as nat),
    ensures
        labels@.len() == n,
        labelled(contents(clusters@), labels@),
{
    let ghost sets = contents(clusters@);
    let mut labels: Vec<usize> = Vec::new();
    let mut i: usize = 0;
    while i < n
        invariant
            i <= n,
            labels@.len() == i,
        decreases n - i,
    {
        labels.push(0);
        i = i + 1;
    }
    let mut c: usize = 0;
    while c < clusters.len()
        invariant
            c <= clusters@.len(),
            sets == contents(clusters@),
            partitions(sets, n as nat),
            labels@.len() == n,
            forall|d: int, k: int|
                0 <= d < c && 0 <= k < sets[d].len() ==> labels@[(#[trigger] sets[d][k]) as int]
                    == d,
        decreases clusters@.len() - c,
    {
        let mut k: usize = 0;
        proof {
            assert(sets[c as int] == clusters@[c as int]@);
        }
        while k < clusters[c].len()
            invariant
                c < clusters@.len(),
                k <= clusters@[c as int]@.len(),
                sets == contents(clusters@),
                sets[c as int] == clusters@[c as int]@,
                partitions(sets, n as nat),
                labels@.len() == n,
                forall|d: int, l: int|
                    0 <= d < c && 0 <= l < sets[d].len() ==> labels@[(
                    #[trigger] sets[d][l]) as int] == d,
                forall|l: int|
                    0 <= l < k ==> labels@[(#[trigger] sets[c as int][l]) as int] == c,
            decreases clusters@[c as int]@.len() - k,
        {
            let at: usize = clusters[c][k];
            proof {
                assert(sets[c as int][k as int] == at);
            }
            labels.set(at, c);
            k = k + 1;
        }
        c = c + 1;
    }
    labels
}

/// The clusters that are left when merging ends are no closer to each other than
/// the threshold.
pub proof fn law_speakers_are_apart<
    T: PartialOrd + Add<Output = T> + Sub<Output = T> + Div<Output = T>,
>(
    measure: Measure<T>,
    clusters: Seq<Seq<usize>>,
    values: Set<T>,
    i: int,
    j: int,
)
    requires
        scalar::linear(values),
        values.contains(measure.units.largest),
        values.contains(measure.threshold),
        forall|a: int, b: int|
            0 <= a < b < agglomerated(measure, clusters).len() ==> values.contains(
                #[trigger] measure.linkage(
                    agglomerated(measure, clusters)[a],
                    agglomerated(measure, clusters)[b],
                ),
            ),
        0 <= i < j < agglomerated(measure, clusters).len(),
    ensures
        scalar::ge(
            measure.linkage(
                agglomerated(measure, clusters)[i],
                agglomerated(measure, clusters)[j],
            ),
            measure.threshold,
        ),
    decreases clusters.len(),
{
    let pair = nearest(measure, clusters);
    if clusters.len() > 1 && scalar::lt(pair.distance, measure.threshold) {
        lemma_nearest_in_range(measure, clusters, clusters.len() as int, 0);
        law_speakers_are_apart(
            measure,
            merged(clusters, pair.first, pair.second),
            values,
            i,
            j,
        );
    } else {
        lemma_nearest_is_least(measure, clusters, values, clusters.len() as int, 0);
        let found = measure.linkage(clusters[i], clusters[j]);
        assert(scalar::le(pair.distance, found));
        assert(scalar::le(measure.threshold, pair.distance) == !scalar::lt(
            pair.distance,
            measure.threshold,
        ));
        assert(scalar::le(measure.threshold, found));
    }
}

proof fn lemma_nearest_is_least<
    T: PartialOrd + Add<Output = T> + Sub<Output = T> + Div<Output = T>,
>(
    measure: Measure<T>,
    clusters: Seq<Seq<usize>>,
    values: Set<T>,
    i: int,
    j: int,
)
    requires
        scalar::linear(values),
        values.contains(measure.units.largest),
        forall|a: int, b: int|
            0 <= a < b < clusters.len() ==> values.contains(
                #[trigger] measure.linkage(clusters[a], clusters[b]),
            ),
        0 <= i <= clusters.len(),
        j <= clusters.len(),
    ensures
        values.contains(nearest_upto(measure, clusters, i, j).distance),
        scalar::le(nearest_upto(measure, clusters, i, j).distance, measure.units.largest),
        forall|a: int, b: int|
            0 <= a < b < clusters.len() && (a < i || (a == i && b < j)) ==> scalar::le(
                nearest_upto(measure, clusters, i, j).distance,
                #[trigger] measure.linkage(clusters[a], clusters[b]),
            ),
    decreases i, j,
{
    let best = nearest_upto(measure, clusters, i, j).distance;
    if 0 <= i && j > i + 1 {
        lemma_nearest_is_least(measure, clusters, values, i, j - 1);
        let sofar = nearest_upto(measure, clusters, i, j - 1).distance;
        let found = measure.linkage(clusters[i], clusters[j - 1]);
        assert(values.contains(found));
        assert(scalar::le(sofar, found) == !scalar::lt(found, sofar));
        assert(scalar::le(found, sofar) == !scalar::lt(sofar, found));
        assert(scalar::le(found, found));
        assert forall|a: int, b: int|
            0 <= a < b < clusters.len() && (a < i || (a == i && b < j)) implies scalar::le(
            best,
            #[trigger] measure.linkage(clusters[a], clusters[b]),
        ) by {
            if !(a == i && b == j - 1) {
                assert(scalar::le(sofar, measure.linkage(clusters[a], clusters[b])));
            }
        }
    } else if i > 0 {
        lemma_nearest_is_least(measure, clusters, values, i - 1, clusters.len() as int);
    } else {
        assert(scalar::le(measure.units.largest, measure.units.largest));
    }
}

/// Labels number the clusters from 0 without leaving a number out, and two
/// elements share a label exactly when they share a cluster.
pub proof fn law_labels_number_the_clusters(
    clusters: Seq<Seq<usize>>,
    labels: Seq<usize>,
    n: nat,
)
    requires
        partitions(clusters, n),
        labelled(clusters, labels),
        labels.len() == n,
    ensures
        forall|x: int| 0 <= x < n ==> #[trigger] labels[x] < clusters.len(),
        forall|c: int| 0 <= c < clusters.len() ==> #[trigger] labels.contains(c as usize),
        forall|x: int, y: int|
            0 <= x < n && 0 <= y < n ==> (#[trigger] labels[x] == #[trigger] labels[y] <==> exists|
                c: int,
            |
                0 <= c < clusters.len() && #[trigger] clusters[c].contains(x as usize)
                    && clusters[c].contains(y as usize)),
{
    assert forall|x: int| 0 <= x < n implies #[trigger] labels[x] < clusters.len()
        && clusters[labels[x] as int].contains(x as usize) by {
        assert(holds(clusters, x));
        let (c, k) = choose|c: int, k: int|
            0 <= c < clusters.len() && 0 <= k < clusters[c].len() && (#[trigger] clusters[c][k])
                == x;
        assert(labels[clusters[c][k] as int] == c);
        assert(clusters[c].contains(x as usize));
    }
    assert forall|c: int| 0 <= c < clusters.len() implies #[trigger] labels.contains(
        c as usize,
    ) by {
        assert(clusters[c].len() > 0);
        let x = clusters[c][0];
        assert(labels[x as int] == c);
    }
    assert forall|x: int, y: int| 0 <= x < n && 0 <= y < n implies (#[trigger] labels[x]
        == #[trigger] labels[y] <==> exists|c: int|
        0 <= c < clusters.len() && #[trigger] clusters[c].contains(x as usize)
            && clusters[c].contains(y as usize)) by {
        if exists|c: int|
            0 <= c < clusters.len() && #[trigger] clusters[c].contains(x as usize)
                && clusters[c].contains(y as usize) {
            let c = choose|c: int|
                0 <= c < clusters.len() && #[trigger] clusters[c].contains(x as usize)
                    && clusters[c].contains(y as usize);
            let k = choose|k: int| 0 <= k < clusters[c].len() && clusters[c][k] == x as usize;
            let l = choose|l: int| 0 <= l < clusters[c].len() && clusters[c][l] == y as usize;
            assert(clusters[c][k] < n && clusters[c][l] < n);
            assert(holds(clusters, x) && holds(clusters, y));
            assert(labels[clusters[c][k] as int] == c);
            assert(labels[clusters[c][l] as int] == c);
        }
        if labels[x] == labels[y] {
            assert(clusters[labels[x] as int].contains(x as usize));
            assert(clusters[labels[y] as int].contains(y as usize));
        }
    }
}

/// Two measures that differ in their threshold at most.
pub open spec fn same_distances<T>(low: Measure<T>, high: Measure<T>) -> bool {
    &&& low.similarity == high.similarity
    &&& low.counts == high.counts
    &&& low.units == high.units
}

/// `low` is no higher than `high`, and whatever is below `low` is below `high`.
pub open spec fn no_higher<T: PartialOrd>(low: T, high: T) -> bool {
    &&& scalar::le(low, high)
    &&& forall|d: T| #[trigger] scalar::lt(d, low) ==> scalar::lt(d, high)
}

proof fn lemma_same_nearest<
    T: PartialOrd + Add<Output = T> + Sub<Output = T> + Div<Output = T>,
>(low: Measure<T>, high: Measure<T>, clusters: Seq<Seq<usize>>, i: int, j: int)
    requires
        same_distances(low, high),
    ensures
        nearest_upto(low, clusters, i, j) == nearest_upto(high, clusters, i, j),
    decreases i, j,
{
    if 0 <= i && j > i + 1 {
        lemma_same_nearest(low, high, clusters, i, j - 1);
    } else if i > 0 {
        lemma_same_nearest(low, high, clusters, i - 1, clusters.len() as int);
    }
}

/// Merging up to a higher threshold is going on from where a lower one stopped.
pub proof fn law_higher_threshold_goes_on<
    T: PartialOrd + Add<Output = T> + Sub<Output = T> + Div<Output = T>,
>(low: Measure<T>, high: Measure<T>, clusters: Seq<Seq<usize>>)
    requires
        same_distances(low, high),
        no_higher(low.threshold, high.threshold),
    ensures
        agglomerated(high, agglomerated(low, clusters)) == agglomerated(high, clusters),
    decreases clusters.len(),
{
    let pair = nearest(low, clusters);
    lemma_same_nearest(low, high, clusters, clusters.len() as int, 0);
    if clusters.len() > 1 && scalar::lt(pair.distance, low.threshold) {
        lemma_nearest_in_range(low, clusters, clusters.len() as int, 0);
        let next = merged(clusters, pair.first, pair.second);
        law_higher_threshold_goes_on(low, high, next);
        assert(agglomerated(low, clusters) == agglomerated(low, next));
        assert(agglomerated(high, clusters) == agglomerated(high, next));
    }
}

/// Two elements are in one cluster.
pub open spec fn together(clusters: Seq<Seq<usize>>, x: int, y: int) -> bool {
    exists|c: int, k: int, l: int|
        0 <= c < clusters.len() && 0 <= k < clusters[c].len() && 0 <= l < clusters[c].len() && (
        #[trigger] clusters[c][k]) == x && (#[trigger] clusters[c][l]) == y
}

/// Merging never parts two elements.
pub proof fn law_merging_never_parts<
    T: PartialOrd + Add<Output = T> + Sub<Output = T> + Div<Output = T>,
>(measure: Measure<T>, clusters: Seq<Seq<usize>>, x: int, y: int)
    requires
        together(clusters, x, y),
    ensures
        together(agglomerated(measure, clusters), x, y),
    decreases clusters.len(),
{
    let pair = nearest(measure, clusters);
    if clusters.len() > 1 && scalar::lt(pair.distance, measure.threshold) {
        lemma_nearest_in_range(measure, clusters, clusters.len() as int, 0);
        let (i, j) = (pair.first, pair.second);
        let next = merged(clusters, i, j);
        let rest = clusters.remove(j);
        let (c, k, l) = choose|c: int, k: int, l: int|
            0 <= c < clusters.len() && 0 <= k < clusters[c].len() && 0 <= l < clusters[c].len() && (
            #[trigger] clusters[c][k]) == x && (#[trigger] clusters[c][l]) == y;
        if c == j {
            assert(next[i][rest[i].len() + k] == x);
            assert(next[i][rest[i].len() + l] == y);
        } else {
            let d = if c < j { c } else { c - 1 };
            assert(rest[d] == clusters[c]);
            assert(next[d][k] == x);
            assert(next[d][l] == y);
        }
        law_merging_never_parts(measure, next, x, y);
    }
}

proof fn lemma_together_is_same_label(
    clusters: Seq<Seq<usize>>,
    labels: Seq<usize>,
    n: nat,
    x: int,
    y: int,
)
    requires
        partitions(clusters, n),
        labelled(clusters, labels),
        0 <= x < n,
        0 <= y < n,
    ensures
        labels[x] == labels[y] <==> together(clusters, x, y),
{
    assert(holds(clusters, x) && holds(clusters, y));
    let (c, k) = choose|c: int, k: int|
        0 <= c < clusters.len() && 0 <= k < clusters[c].len() && (#[trigger] clusters[c][k]) == x;
    let (d, l) = choose|d: int, l: int|
        0 <= d < clusters.len() && 0 <= l < clusters[d].len() && (#[trigger] clusters[d][l]) == y;
    assert(labels[clusters[c][k] as int] == c);
    assert(labels[clusters[d][l] as int] == d);
}

/// Raising the threshold only merges: embeddings that share a label under a lower
/// threshold share one under a higher, and there are no more labels.
pub proof fn law_raising_the_threshold_only_merges<E, T, D, C>(
    embeddings: Seq<SpeakerEmbedding<E>>,
    low: Measure<T>,
    high: Measure<T>,
    dot: D,
    count_of: C,
    low_labels: Seq<usize>,
    high_labels: Seq<usize>,
)
    where
        T: PartialOrd + Add<Output = T> + Sub<Output = T> + Div<Output = T>,
        D: Fn(&E, &E) -> T,
        C: Fn(usize) -> T,

    requires
        embeddings.len() <= usize::MAX,
        same_distances(low, high),
        no_higher(low.threshold, high.threshold),
        measured_by(embeddings, low.threshold, low.units, dot, count_of, low),
        labels_speakers(embeddings, low.threshold, low.units, dot, count_of, low_labels),
        labels_speakers(embeddings, high.threshold, low.units, dot, count_of, high_labels),
    ensures
        forall|x: int, y: int|
            0 <= x < embeddings.len() && 0 <= y < embeddings.len() && #[trigger] low_labels[x]
                == #[trigger] low_labels[y] ==> high_labels[x] == high_labels[y],
        agglomerated(high, singletons(embeddings.len())).len() <= agglomerated(
            low,
            singletons(embeddings.len()),
        ).len(),
{
    let n = embeddings.len();
    let start = singletons(n);
    let lower = agglomerated(low, start);
    let higher = agglomerated(high, start);
    assert(measured_by(embeddings, high.threshold, low.units, dot, count_of, high));
    lemma_singletons(n);
    law_agglomerating_keeps_a_partition(low, start, n);
    law_agglomerating_keeps_a_partition(high, start, n);
    law_higher_threshold_goes_on(low, high, start);
    law_agglomerating_keeps_a_partition(high, lower, n);
    assert forall|x: int, y: int|
        0 <= x < n && 0 <= y < n && #[trigger] low_labels[x]
            == #[trigger] low_labels[y] implies high_labels[x] == high_labels[y] by {
        lemma_together_is_same_label(lower, low_labels, n, x, y);
        law_merging_never_parts(high, lower, x, y);
        lemma_together_is_same_label(higher, high_labels, n, x, y);
    }
}

/// Labels depend on what the embeddings hold, and on nothing else: embeddings with
/// the same contents get the same labels.
pub proof fn law_labels_go_by_contents<A, T, D, C>(
    embeddings: Seq<SpeakerEmbedding<Vec<A>>>,
    others: Seq<SpeakerEmbedding<Vec<A>>>,
    threshold: T,
    units: Units<T>,
    dot: D,
    count_of: C,
    labels: Seq<usize>,
    other_labels: Seq<usize>,
)
    where
        T: PartialOrd + Add<Output = T> + Sub<Output = T> + Div<Output = T>,
        D: Fn(&Vec<A>, &Vec<A>) -> T,
        C: Fn(usize) -> T,

    requires
        embeddings.len() <= usize::MAX,
        embeddings.len() == others.len(),
        forall|k: int|
            0 <= k < embeddings.len() ==> (#[trigger] embeddings[k]).data@ == others[k].data@,
        functions::reads_contents(dot),
        functions::steady(count_of),
        labels_speakers(embeddings, threshold, units, dot, count_of, labels),
        labels_speakers(others, threshold, units, dot, count_of, other_labels),
    ensures
        labels == other_labels,
{
    let n = embeddings.len();
    let measure = Measure {
        similarity: |a: int, b: int|
            choose|s: T| may_compare(dot, embeddings[a].data@, embeddings[b].data@, s),
        counts: |n: usize| functions::value(count_of, n),
        units,
        threshold,
    };
    assert forall|a: int, b: int, s: T|
        0 <= a < n && 0 <= b < n && a != b && #[trigger] dot.ensures(
            (&embeddings[a].data, &embeddings[b].data),
            s,
        ) implies s == (measure.similarity)(a, b) by {
        lemma_compares_one_way(dot, embeddings[a].data, embeddings[b].data, s);
    }
    assert forall|a: int, b: int, s: T|
        0 <= a < n && 0 <= b < n && a != b && #[trigger] dot.ensures(
            (&others[a].data, &others[b].data),
            s,
        ) implies s == (measure.similarity)(a, b) by {
        assert(embeddings[a].data@ == others[a].data@);
        assert(embeddings[b].data@ == others[b].data@);
        lemma_compares_one_way(dot, others[a].data, others[b].data, s);
    }
    assert(measured_by(embeddings, threshold, units, dot, count_of, measure));
    assert(measured_by(others, threshold, units, dot, count_of, measure));
    let clusters = agglomerated(measure, singletons(n));
    lemma_singletons(n);
    law_agglomerating_keeps_a_partition(measure, singletons(n), n);
    assert forall|x: int| 0 <= x < n implies labels[x] == other_labels[x] by {
        assert(holds(clusters, x));
        let (c, k) = choose|c: int, k: int|
            0 <= c < clusters.len() && 0 <= k < clusters[c].len() && (#[trigger] clusters[c][k])
                == x;
        assert(labels[clusters[c][k] as int] == c);
        assert(other_labels[clusters[c][k] as int] == c);
    }
    assert(labels =~= other_labels);
}

/// `dot` may return `s` for two vectors that hold this.
spec fn may_compare<A, T, D: Fn(&Vec<A>, &Vec<A>) -> T>(
    dot: D,
    a: Seq<A>,
    b: Seq<A>,
    s: T,
) -> bool {
    exists|x: Vec<A>, y: Vec<A>| x@ == a && y@ == b && #[trigger] dot.ensures((&x, &y), s)
}

proof fn lemma_compares_one_way<A, T, D: Fn(&Vec<A>, &Vec<A>) -> T>(
    dot: D,
    a: Vec<A>,
    b: Vec<A>,
    s: T,
)
    requires
        functions::reads_contents(dot),
        dot.ensures((&a, &b), s),
    ensures
        s == (choose|t: T| may_compare(dot, a@, b@, t)),
{
    assert(may_compare(dot, a@, b@, s));
    let t = choose|t: T| may_compare(dot, a@, b@, t);
    let (x, y) = choose|x: Vec<A>, y: Vec<A>|
        x@ == a@ && y@ == b@ && #[trigger] dot.ensures((&x, &y), t);
    assert(dot.ensures((&x, &y), t));
}

} // verus!
