//! What telling who spoke when comes to, in terms of the speech that was found.

use crate::clustering;
use crate::clustering::Units;
use crate::diarizer;
use crate::diarizer::{merge_segments, resolve_speakers, Diarizer, EmbeddedSpeech};
use crate::embedding::{EmbeddingExtractor, RawPrint, Spectrum, VoicePrint};
use crate::exact;
use crate::functions;
use crate::grouping;
use crate::order;
use crate::order::sort_by_start;
use crate::segmentation::{Answer, SegmentationEngine};
use crate::tensor::Tensor;
use crate::types::{DiarizationConfig, DiarizationError, DiarizationSegment, SpeakerEmbedding};
use core::ops::{Add, Div, Mul, Sub};
use vstd::prelude::*;
#[allow(unused_imports)]
use vstd::std_specs::ops::{AddSpec, DivSpec, MulSpec, SubSpec};

verus! {

/// Segment `i` starts no later than `tolerance` after the end of one of the segments from
/// `first` on before it.
pub open spec fn is_reached<T>(
    of: spec_fn(T) -> real,
    tolerance: T,
    segments: Seq<DiarizationSegment<T>>,
    first: int,
    i: int,
) -> bool {
    exists|j: int|
        first <= j < i && of(segments[i].start) <= of((#[trigger] segments[j]).end) + of(tolerance)
}

/// The segments from `first` on before `end` are one: they have one speaker, each is
/// reached by those before it, and together they last from the start of the first to the
/// latest end.
pub open spec fn is_one<T>(
    of: spec_fn(T) -> real,
    tolerance: T,
    segments: Seq<DiarizationSegment<T>>,
    first: int,
    end: int,
    whole: DiarizationSegment<T>,
) -> bool {
    &&& 0 <= first < end <= segments.len()
    &&& whole.start == segments[first].start
    &&& forall|i: int|
        first <= i < end ==> (#[trigger] segments[i]).speaker_id == whole.speaker_id && of(
            segments[i].end,
        ) <= of(whole.end)
    &&& exists|i: int| first <= i < end && (#[trigger] segments[i]).end == whole.end
    &&& forall|i: int|
        first < i < end ==> #[trigger] is_reached(of, tolerance, segments, first, i)
}

/// The first `n` segments, cut into pieces of neighbours that are one: piece `k` is from
/// `cuts[k]` on before `cuts[k + 1]`, and no piece could have gone on.
pub open spec fn is_cut<T>(
    of: spec_fn(T) -> real,
    tolerance: T,
    segments: Seq<DiarizationSegment<T>>,
    n: int,
    pieces: Seq<DiarizationSegment<T>>,
    cuts: Seq<int>,
) -> bool {
    &&& cuts.len() == pieces.len() + 1
    &&& cuts[0] == 0
    &&& cuts[pieces.len() as int] == n
    &&& forall|k: int|
        0 <= k < pieces.len() ==> is_one(
            of,
            tolerance,
            segments,
            cuts[k],
            cuts[k + 1],
            #[trigger] pieces[k],
        )
    &&& forall|k: int|
        0 <= k < pieces.len() - 1 ==> {
            let next = segments[cuts[k + 1]];
            ||| next.speaker_id != (#[trigger] pieces[k]).speaker_id
            ||| of(next.start) > of(pieces[k].end) + of(tolerance)
        }
}

proof fn lemma_joined_is_cut<T: PartialOrd + Add<Output = T>>(
    of: spec_fn(T) -> real,
    tolerance: T,
    segments: Seq<DiarizationSegment<T>>,
    n: int,
) -> (cuts: Seq<int>)
    requires
        exact::adds(of),
        exact::compares(of),
        0 <= n <= segments.len(),
    ensures
        is_cut(of, tolerance, segments, n, diarizer::joined_upto(segments, tolerance, n), cuts),
    decreases n,
{
    let now = diarizer::joined_upto(segments, tolerance, n);
    if n <= 0 {
        seq![0int]
    } else {
        let before = lemma_joined_is_cut(of, tolerance, segments, n - 1);
        let sofar = diarizer::joined_upto(segments, tolerance, n - 1);
        let new = segments[n - 1];
        let count = sofar.len() as int;
        if count > 0 && diarizer::continues(sofar.last(), new, tolerance) {
            let cuts = before.update(count, n);
            let last = sofar[count - 1];
            let first = cuts[count - 1];
            assert(is_one(of, tolerance, segments, first, n - 1, last));
            let whole = now[count - 1];
            let at = choose|i: int| first <= i < n - 1 && (#[trigger] segments[i]).end == last.end;
            assert forall|i: int| first < i < n implies #[trigger] is_reached(
                of,
                tolerance,
                segments,
                first,
                i,
            ) by {
                if i == n - 1 {
                    assert(of(new.start) <= of(segments[at].end) + of(tolerance));
                }
            }
            assert(segments[at].end == whole.end || segments[n - 1].end == whole.end);
            assert(is_one(of, tolerance, segments, first, n, whole));
            assert forall|k: int| 0 <= k < now.len() implies is_one(
                of,
                tolerance,
                segments,
                cuts[k],
                cuts[k + 1],
                #[trigger] now[k],
            ) by {
                if k < count - 1 {
                    assert(now[k] == sofar[k]);
                }
            }
            assert forall|k: int| 0 <= k < now.len() - 1 implies {
                let next = segments[cuts[k + 1]];
                ||| next.speaker_id != (#[trigger] now[k]).speaker_id
                ||| of(next.start) > of(now[k].end) + of(tolerance)
            } by {
                assert(now[k] == sofar[k]);
            }
            cuts
        } else {
            let cuts = before.push(n);
            assert(now[count] == new);
            assert(segments[n - 1].end == new.end);
            assert(is_one(of, tolerance, segments, n - 1, n, new));
            assert forall|k: int| 0 <= k < now.len() implies is_one(
                of,
                tolerance,
                segments,
                cuts[k],
                cuts[k + 1],
                #[trigger] now[k],
            ) by {
                if k < count {
                    assert(now[k] == sofar[k]);
                }
            }
            assert forall|k: int| 0 <= k < now.len() - 1 implies {
                let next = segments[cuts[k + 1]];
                ||| next.speaker_id != (#[trigger] now[k]).speaker_id
                ||| of(next.start) > of(now[k].end) + of(tolerance)
            } by {
                assert(now[k] == sofar[k]);
                if k == count - 1 {
                    assert(sofar.last() == sofar[k]);
                }
            }
            cuts
        }
    }
}

/// Joining puts neighbours together that have one speaker and reach each other, as many
/// as do, and changes nothing else.
pub proof fn law_joining_puts_neighbours_together<T: Copy + PartialOrd + Add<Output = T>>(
    of: spec_fn(T) -> real,
    segments: &Vec<DiarizationSegment<T>>,
    tolerance: T,
    merged: Vec<DiarizationSegment<T>>,
)
    requires
        exact::adds(of),
        exact::compares(of),
        call_ensures(merge_segments::<T>, (segments, tolerance), merged),
    ensures
        exists|cuts: Seq<int>| #[trigger]
            is_cut(of, tolerance, segments@, segments@.len() as int, merged@, cuts),
{
    let cuts = lemma_joined_is_cut(of, tolerance, segments@, segments@.len() as int);
    assert(is_cut(of, tolerance, segments@, segments@.len() as int, merged@, cuts));
}

/// The list holds the numbers below `n`, each once.
pub open spec fn is_rearrangement(from: Seq<int>, n: nat) -> bool {
    &&& from.len() == n
    &&& forall|k: int| 0 <= k < n ==> 0 <= #[trigger] from[k] < n
    &&& forall|k: int, l: int| 0 <= k < l < n ==> #[trigger] from[k] != #[trigger] from[l]
    &&& forall|i: int| 0 <= i < n ==> #[trigger] from.contains(i)
}

/// Earlier starts come first, and of equal starts those that stood first.
pub open spec fn is_by_start<T>(
    of: spec_fn(T) -> real,
    sorted: Seq<DiarizationSegment<T>>,
    from: Seq<int>,
) -> bool {
    forall|k: int, l: int|
        0 <= k < l < sorted.len() ==> {
            ||| of((#[trigger] sorted[k]).start) < of((#[trigger] sorted[l]).start)
            ||| of(sorted[k].start) == of(sorted[l].start) && from[k] < from[l]
        }
}

proof fn lemma_sorted_by_start<T: PartialOrd>(
    of: spec_fn(T) -> real,
    segments: Seq<DiarizationSegment<T>>,
) -> (from: Seq<int>)
    requires
        exact::compares(of),
    ensures
        is_rearrangement(from, segments.len()),
        is_by_start(of, order::sorted_by_start(segments), from),
        order::sorted_by_start(segments).len() == segments.len(),
        forall|k: int|
            0 <= k < segments.len() ==> #[trigger] order::sorted_by_start(segments)[k]
                == segments[from[k]],
{
    exact::lemma_compared_in_one_line(of);
    order::law_sorting_puts_in_order(segments);
    let sorted = order::sorted_by_start(segments);
    let from = choose|from: Seq<int>| order::ordered_by(segments, sorted, from);
    assert forall|k: int, l: int| 0 <= k < l < sorted.len() implies {
        ||| of((#[trigger] sorted[k]).start) < of((#[trigger] sorted[l]).start)
        ||| of(sorted[k].start) == of(sorted[l].start) && from[k] < from[l]
    } by {
        assert(order::goes_before(segments, from[k], from[l]));
    }
    assert forall|k: int, l: int| 0 <= k < l < from.len() implies #[trigger] from[k]
        != #[trigger] from[l] by {
        assert(order::goes_before(segments, from[k], from[l]));
    }
    from
}

/// Sorting keeps every segment, puts earlier starts first and leaves segments that start
/// together as they stood.
pub proof fn law_sorting_is_stable<T: Copy + PartialOrd>(
    of: spec_fn(T) -> real,
    segments: &Vec<DiarizationSegment<T>>,
    sorted: Vec<DiarizationSegment<T>>,
)
    requires
        exact::compares(of),
        call_ensures(sort_by_start::<T>, (segments,), sorted),
    ensures
        sorted@.len() == segments@.len(),
        exists|from: Seq<int>| #[trigger]
            is_rearrangement(from, segments@.len()) && is_by_start(of, sorted@, from) && forall|
                k: int,
            |
                0 <= k < segments@.len() ==> #[trigger] sorted@[k] == segments@[from[k]],
{
    let from = lemma_sorted_by_start(of, segments@);
    assert(is_rearrangement(from, segments@.len()));
}

/// The stretches with their speakers, earlier starts first.
pub open spec fn are_put_in_order<T>(
    of: spec_fn(T) -> real,
    spans: Seq<(T, T)>,
    labels: Seq<usize>,
    sorted: Seq<DiarizationSegment<T>>,
    from: Seq<int>,
) -> bool {
    &&& sorted.len() == spans.len()
    &&& is_rearrangement(from, spans.len())
    &&& is_by_start(of, sorted, from)
    &&& forall|k: int|
        0 <= k < spans.len() ==> (#[trigger] sorted[k]).start == spans[from[k]].0 && sorted[k].end
            == spans[from[k]].1 && sorted[k].speaker_id == labels[from[k]]
}

/// The segments are the stretches with their speakers, put in order and joined.
pub open spec fn is_told<T>(
    of: spec_fn(T) -> real,
    tolerance: T,
    spans: Seq<(T, T)>,
    labels: Seq<usize>,
    segments: Seq<DiarizationSegment<T>>,
) -> bool {
    exists|sorted: Seq<DiarizationSegment<T>>, from: Seq<int>, cuts: Seq<int>|
        #[trigger] are_put_in_order(of, spans, labels, sorted, from) && #[trigger] is_cut(
            of,
            tolerance,
            sorted,
            spans.len() as int,
            segments,
            cuts,
        )
}

proof fn lemma_told<T: PartialOrd + Add<Output = T>>(
    of: spec_fn(T) -> real,
    tolerance: T,
    spans: Seq<(T, T)>,
    labels: Seq<usize>,
)
    requires
        exact::adds(of),
        exact::compares(of),
        labels.len() == spans.len(),
    ensures
        is_told(
            of,
            tolerance,
            spans,
            labels,
            diarizer::joined(
                order::sorted_by_start(diarizer::spoken(spans, labels)),
                tolerance,
            ),
        ),
{
    let told = diarizer::spoken(spans, labels);
    let sorted = order::sorted_by_start(told);
    let from = lemma_sorted_by_start(of, told);
    let cuts = lemma_joined_is_cut(of, tolerance, sorted, sorted.len() as int);
    assert(are_put_in_order(of, spans, labels, sorted, from));
    assert(is_cut(
        of,
        tolerance,
        sorted,
        spans.len() as int,
        diarizer::joined(sorted, tolerance),
        cuts,
    ));
}

/// Each stretch is told with the speaker that its voice print was grouped with; see
/// `is_told` and `grouping::is_grouping`.
pub proof fn law_stretches_are_told_with_their_speakers<T, S, E, D, C>(
    time_of: spec_fn(T) -> real,
    of: spec_fn(S) -> real,
    similarity: spec_fn(int, int) -> S,
    speech: &EmbeddedSpeech<T, E>,
    tolerance: T,
    threshold: S,
    units: Units<S>,
    dot: &D,
    count_of: &C,
    segments: Vec<DiarizationSegment<T>>,
) where
    T: Copy + PartialOrd + Add<Output = T>,
    S: Copy + PartialOrd + Add<Output = S> + Sub<Output = S> + Div<Output = S>,
    D: Fn(&E, &E) -> S,
    C: Fn(usize) -> S,

    requires
        exact::adds(time_of),
        exact::compares(time_of),
        exact::adds(of),
        exact::subtracts(of),
        exact::divides(of),
        exact::compares(of),
        exact::counts(of, *count_of),
        functions::steady(*count_of),
        of(units.zero) == 0real,
        of(units.one) == 1real,
        speech.spans@.len() == speech.embeddings@.len(),
        speech.spans@.len() * speech.spans@.len() <= usize::MAX,
        are_similarities(of, speech.embeddings@, *dot, of(units.largest), similarity),
        call_ensures(
            resolve_speakers::<T, S, E, D, C>,
            (speech, tolerance, threshold, units, dot, count_of),
            segments,
        ),
    ensures
        exists|labels: Seq<usize>| #[trigger]
            grouping::is_grouping(of, similarity, threshold, speech.spans@.len(), labels)
                && is_told(time_of, tolerance, speech.spans@, labels, segments@),
{
    let labels = choose|labels: Seq<usize>| #[trigger]
        clustering::labels_speakers(
            speech.embeddings@,
            threshold,
            units,
            *dot,
            *count_of,
            labels,
        ) && segments@ == diarizer::joined(
            order::sorted_by_start(diarizer::spoken(speech.spans@, labels)),
            tolerance,
        );
    grouping::lemma_grouping(
        of,
        similarity,
        speech.embeddings@,
        threshold,
        units,
        *dot,
        *count_of,
        labels,
    );
    lemma_told(time_of, tolerance, speech.spans@, labels);
}

/// These are the similarities that `dot` tells of some voice prints, and none is so low
/// that the prints are as far apart as `most`.
pub open spec fn are_similarities<E, S, D: Fn(&E, &E) -> S>(
    of: spec_fn(S) -> real,
    embeddings: Seq<SpeakerEmbedding<E>>,
    dot: D,
    most: real,
    similarity: spec_fn(int, int) -> S,
) -> bool {
    &&& forall|a: int, b: int, s: S|
        0 <= a < embeddings.len() && 0 <= b < embeddings.len() && a != b && #[trigger] dot.ensures(
            (&embeddings[a].data, &embeddings[b].data),
            s,
        ) ==> s == similarity(a, b)
    &&& forall|a: int, b: int|
        0 <= a < embeddings.len() && 0 <= b < embeddings.len() ==> 1real - of(
            #[trigger] similarity(a, b),
        ) < most
}

/// The list names, from the first on, those of the first `n` segments that have a voice
/// print, and all of them.
pub open spec fn names_printed<E>(
    prints: Seq<Option<SpeakerEmbedding<E>>>,
    n: int,
    picks: Seq<int>,
) -> bool {
    &&& forall|k: int| 0 <= k < picks.len() ==> 0 <= #[trigger] picks[k] < n
    &&& forall|k: int, l: int|
        0 <= k < l < picks.len() ==> #[trigger] picks[k] < #[trigger] picks[l]
    &&& forall|i: int| 0 <= i < n ==> (#[trigger] prints[i] is Some <==> picks.contains(i))
}

proof fn lemma_printed_are_picked<T, E>(
    found: Seq<DiarizationSegment<T>>,
    prints: Seq<Option<SpeakerEmbedding<E>>>,
    n: int,
) -> (picks: Seq<int>)
    requires
        0 <= n <= found.len(),
        n <= prints.len(),
    ensures
        names_printed(prints, n, picks),
        diarizer::printed(prints, n).len() == picks.len(),
        diarizer::printed_spans(found, prints, n).len() == picks.len(),
        forall|k: int|
            0 <= k < picks.len() ==> {
                &&& diarizer::printed(prints, n)[k] == prints[#[trigger] picks[k]]->0
                &&& diarizer::printed_spans(found, prints, n)[k] == (
                    found[picks[k]].start,
                    found[picks[k]].end,
                )
            },
    decreases n,
{
    if n <= 0 {
        Seq::empty()
    } else {
        let before = lemma_printed_are_picked(found, prints, n - 1);
        if prints[n - 1] is Some {
            let picks = before.push(n - 1);
            assert forall|i: int| 0 <= i < n implies (#[trigger] prints[i] is Some
                <==> picks.contains(i)) by {
                if i < n - 1 {
                    if before.contains(i) {
                        let k = choose|k: int| 0 <= k < before.len() && before[k] == i;
                        assert(picks[k] == i);
                    }
                    if picks.contains(i) {
                        let k = choose|k: int| 0 <= k < picks.len() && picks[k] == i;
                        assert(before[k] == i);
                    }
                } else {
                    assert(picks[picks.len() - 1] == i);
                }
            }
            picks
        } else {
            assert forall|i: int| 0 <= i < n implies (#[trigger] prints[i] is Some
                <==> before.contains(i)) by {
                if i == n - 1 && before.contains(i) {
                    let k = choose|k: int| 0 <= k < before.len() && before[k] == i;
                    assert(before[k] < n - 1);
                }
            }
            before
        }
    }
}

/// Sample `n` is the one that sounds at a time, where the time lies in a recording.
pub open spec fn is_sample_at(time: real, rate: real, n: usize) -> bool {
    0real <= time * rate <= usize::MAX as real ==> n as real <= time * rate < n as real + 1real
}

impl<A, T, N, W, R, C, X, M, K, Q, F, G, D, P> Diarizer<
    A,
    T,
    N,
    W,
    R,
    C,
    X,
    M,
    K,
    Q,
    F,
    G,
    D,
    P,
> where
    A: Copy + PartialOrd + Add<Output = A> + Sub<Output = A> + Mul<Output = A> + Div<Output = A>,
    T: Copy + PartialOrd + Add<Output = T> + Mul<Output = T> + Div<Output = T>,
    N: Fn(usize) -> T,
    W: Fn(T) -> usize,
    R: Fn(T) -> usize,
    C: Fn(T) -> usize,
    X: Fn(A) -> A,
    M: Fn(&Tensor<A>) -> Answer<A>,
    K: Fn(usize) -> A,
    Q: Fn(A) -> A,
    F: Fn(&[A]) -> Spectrum<A>,
    G: Fn(&Tensor<A>) -> RawPrint<A>,
    D: Fn(&Vec<A>, &Vec<A>) -> A,
    P: Fn(&DiarizationSegment<T>, &DiarizationError),
 {
    /// The standard diarizer joins segments of a speaker that lie no more than a hundredth
    /// of a second apart.
    pub proof fn law_standard_diarizer(
        time_of: spec_fn(T) -> real,
        segmentation_engine: SegmentationEngine<A, T, N, W, R, C, X, M>,
        embedding_extractor: EmbeddingExtractor<A, K, Q, F, G>,
        dot: D,
        largest: A,
        report: P,
        diarizer: Self,
    )
        requires
            segmentation_engine.keeps_time(time_of),
            call_ensures(
                Self::standard,
                (segmentation_engine, embedding_extractor, dot, largest, report),
                diarizer,
            ),
        ensures
            100real * time_of(diarizer.tolerance) == 1real,
            diarizer.segmentation_engine == segmentation_engine,
            diarizer.embedding_extractor == embedding_extractor,
            diarizer.dot == dot,
            diarizer.largest == largest,
            diarizer.report == report,
    {
        exact::lemma_fraction_is(
            time_of,
            segmentation_engine.clock.count_of,
            1,
            100,
            1real,
            100real,
        );
    }

    /// The extractor is given the samples from `start` on before `end`, and this comes
    /// of it.
    pub open spec fn prints_samples(
        self,
        of: spec_fn(A) -> real,
        samples: Seq<A>,
        start: usize,
        end: usize,
        made: VoicePrint<A>,
    ) -> bool {
        exists|heard: &[A], spectrum: Spectrum<A>|
            {
                &&& #[trigger] self.embedding_extractor.filter.ensures((heard,), spectrum)
                &&& heard@.len() == end - start
                &&& forall|i: int|
                    0 <= i < heard@.len() ==> #[trigger] heard@[i] == samples[start + i]
                &&& self.embedding_extractor.is_print_of(of, spectrum, made)
            }
    }

    /// The voice print of a segment is made of the samples that sound from its start on
    /// before its end; there is none if they are not all in the recording, if there are
    /// none, or if the extractor fails on them.
    pub open spec fn is_print(
        self,
        time_of: spec_fn(T) -> real,
        of: spec_fn(A) -> real,
        samples: Seq<A>,
        config: DiarizationConfig<T, A>,
        segment: DiarizationSegment<T>,
        print: Option<SpeakerEmbedding<Vec<A>>>,
    ) -> bool {
        exists|start: usize, end: usize|
            {
                &&& #[trigger] is_sample_at(
                    time_of(segment.start),
                    config.sample_rate as real,
                    start,
                )
                &&& #[trigger] is_sample_at(
                    time_of(segment.end),
                    config.sample_rate as real,
                    end,
                )
                &&& match print {
                    Some(embedding) => start < end <= samples.len() && self.prints_samples(
                        of,
                        samples,
                        start,
                        end,
                        Ok(embedding),
                    ),
                    None => start < end <= samples.len() ==> exists|error: DiarizationError|
                        #[trigger]
                        self.prints_samples(of, samples, start, end, Err(error)),
                }
            }
    }

    /// The sample at a time is the one that sounds then: as many as there are in a second,
    /// for each second, and what is left over does not count.
    pub proof fn law_samples_are_found_by_their_time(
        self,
        time_of: spec_fn(T) -> real,
        config: DiarizationConfig<T, A>,
        time: T,
    )
        requires
            self.segmentation_engine.keeps_time(time_of),
        ensures
            is_sample_at(
                time_of(time),
                config.sample_rate as real,
                self.sample_at(config, time),
            ),
    {
        let rate = self.segmentation_engine.rate(config);
        assert(time_of(rate) == config.sample_rate as real);
        assert(time_of(time.mul_spec(rate)) == time_of(time) * time_of(rate));
    }

    proof fn lemma_extracts_is_printing(
        self,
        of: spec_fn(A) -> real,
        samples: Seq<A>,
        start: usize,
        end: usize,
        made: VoicePrint<A>,
    )
        requires
            self.embedding_extractor.is_exact(of),
            start < end <= samples.len(),
            self.embedding_extractor.extracts(
                samples.subrange(start as int, end as int),
                made,
            ),
        ensures
            self.prints_samples(of, samples, start, end, made),
    {
        let extractor = self.embedding_extractor;
        let stretch = samples.subrange(start as int, end as int);
        let (heard, spectrum) = choose|heard: &[A], spectrum: Spectrum<A>|
            heard@ == stretch && #[trigger] extractor.filter.ensures((heard,), spectrum)
                && extractor.continues(spectrum, made);
        extractor.law_prints_are_made_of_the_bands(of, spectrum, made);
        assert(extractor.filter.ensures((heard,), spectrum));
    }

    /// What may come of making the voice print of a segment is made of the samples of the
    /// segment, sample for sample.
    pub proof fn law_prints_are_of_the_samples_of_a_segment(
        self,
        time_of: spec_fn(T) -> real,
        of: spec_fn(A) -> real,
        samples: Seq<A>,
        config: DiarizationConfig<T, A>,
        segment: DiarizationSegment<T>,
        print: Option<SpeakerEmbedding<Vec<A>>>,
    )
        requires
            self.segmentation_engine.keeps_time(time_of),
            self.embedding_extractor.is_exact(of),
            self.may_print(samples, config, segment, print),
        ensures
            self.is_print(time_of, of, samples, config, segment, print),
    {
        let start = self.sample_at(config, segment.start);
        let end = self.sample_at(config, segment.end);
        self.law_samples_are_found_by_their_time(time_of, config, segment.start);
        self.law_samples_are_found_by_their_time(time_of, config, segment.end);
        if start < end <= samples.len() {
            let stretch = samples.subrange(start as int, end as int);
            assert(stretch == self.stretch(samples, config, segment));
            match print {
                Some(embedding) => {
                    self.lemma_extracts_is_printing(of, samples, start, end, Ok(embedding));
                },
                None => {
                    let error = choose|error: DiarizationError| #[trigger]
                        self.embedding_extractor.extracts(stretch, Err(error));
                    self.lemma_extracts_is_printing(of, samples, start, end, Err(error));
                    assert(self.prints_samples(of, samples, start, end, Err(error)));
                },
            }
        }
    }

    /// The voice print of a segment depends on its own samples only: where another
    /// recording has the same samples from the start of the segment on before its end,
    /// the same may come of it, whatever else it holds.
    pub proof fn law_prints_depend_on_their_own_samples_only(
        self,
        samples: Seq<A>,
        others: Seq<A>,
        config: DiarizationConfig<T, A>,
        segment: DiarizationSegment<T>,
        print: Option<SpeakerEmbedding<Vec<A>>>,
    )
        requires
            self.in_recording(samples, config, segment),
            self.in_recording(others, config, segment),
            forall|i: int|
                self.sample_at(config, segment.start) <= i < self.sample_at(config, segment.end)
                    ==> #[trigger] samples[i] == others[i],
        ensures
            self.may_print(samples, config, segment, print) <==> self.may_print(
                others,
                config,
                segment,
                print,
            ),
    {
        assert(self.stretch(samples, config, segment) =~= self.stretch(others, config, segment));
    }

    /// The speech that was found is told: each segment has its voice print or none, those
    /// with a print are grouped by it, and are told with the speaker of their group.
    pub open spec fn is_telling(
        self,
        time_of: spec_fn(T) -> real,
        of: spec_fn(A) -> real,
        samples: Seq<A>,
        config: DiarizationConfig<T, A>,
        found: Seq<DiarizationSegment<T>>,
        prints: Seq<Option<SpeakerEmbedding<Vec<A>>>>,
        segments: Seq<DiarizationSegment<T>>,
    ) -> bool {
        &&& prints.len() == found.len()
        &&& forall|k: int|
            0 <= k < found.len() ==> self.is_print(
                time_of,
                of,
                samples,
                config,
                found[k],
                #[trigger] prints[k],
            )
        &&& exists|picks: Seq<int>| #[trigger]
            names_printed(prints, found.len() as int, picks) && self.is_telling_of(
                time_of,
                of,
                config,
                picks.map_values(|i: int| (found[i].start, found[i].end)),
                picks.map_values(|i: int| prints[i]->0),
                segments,
            )
    }

    /// The stretches are told with the speakers that their voice prints are grouped by,
    /// however similar the prints are.
    pub open spec fn is_telling_of(
        self,
        time_of: spec_fn(T) -> real,
        of: spec_fn(A) -> real,
        config: DiarizationConfig<T, A>,
        spans: Seq<(T, T)>,
        embeddings: Seq<SpeakerEmbedding<Vec<A>>>,
        segments: Seq<DiarizationSegment<T>>,
    ) -> bool {
        exists|labels: Seq<usize>|
            {
                &&& #[trigger] is_told(time_of, self.tolerance, spans, labels, segments)
                &&& labels.len() == spans.len()
                &&& spans.len() * spans.len() <= usize::MAX ==> forall|
                    similarity: spec_fn(int, int) -> A,
                |
                    #[trigger] are_similarities(
                        of,
                        embeddings,
                        self.dot,
                        of(self.largest),
                        similarity,
                    ) ==> grouping::is_grouping(
                        of,
                        similarity,
                        config.clustering_threshold,
                        spans.len(),
                        labels,
                    )
            }
    }

    /// Diarizing finds speech in the recording, makes the voice print of each stretch of
    /// exactly its samples, groups the prints, and tells each stretch with the speaker of
    /// its group. An empty recording has no speech, and what finding speech fails with is
    /// passed on.
    pub proof fn law_diarizing_tells_who_spoke(
        self,
        time_of: spec_fn(T) -> real,
        of: spec_fn(A) -> real,
        samples: &[A],
        config: &DiarizationConfig<T, A>,
        made: Result<Vec<DiarizationSegment<T>>, DiarizationError>,
    )
        requires
            self.segmentation_engine.keeps_time(time_of),
            self.embedding_extractor.is_exact(of),
            functions::steady(self.embedding_extractor.count_of),
            of(self.segmentation_engine.rules.one) == 1real,
            call_ensures(Self::diarize, (&self, samples, config), made),
        ensures
            samples@.len() == 0 ==> (made matches Ok(segments) && segments@.len() == 0),
            samples@.len() > 0 ==> match made {
                Err(error) => self.segmentation_engine.segments(
                    samples@,
                    *config,
                    Err::<Vec<DiarizationSegment<T>>, DiarizationError>(error),
                ),
                Ok(segments) => exists|
                    found: Vec<DiarizationSegment<T>>,
                    prints: Seq<Option<SpeakerEmbedding<Vec<A>>>>,
                |
                    self.segmentation_engine.segments(samples@, *config, Ok(found))
                        && #[trigger] self.is_telling(
                        time_of,
                        of,
                        samples@,
                        *config,
                        found@,
                        prints,
                        segments@,
                    ),
            },
    {
        if let Ok(segments) = made {
            if samples@.len() > 0 {
                let (found, prints) = choose|
                    found: Vec<DiarizationSegment<T>>,
                    prints: Seq<Option<SpeakerEmbedding<Vec<A>>>>,
                |
                    self.segmentation_engine.segments(samples@, *config, Ok(found)) && prints.len()
                        == found@.len() && #[trigger] self.may_print_all(
                        samples@,
                        *config,
                        found@,
                        prints,
                    ) && self.tells(*config, found@, prints, segments@);
                let n = found@.len() as int;
                assert forall|k: int| 0 <= k < n implies self.is_print(
                    time_of,
                    of,
                    samples@,
                    *config,
                    found@[k],
                    #[trigger] prints[k],
                ) by {
                    self.law_prints_are_of_the_samples_of_a_segment(
                        time_of,
                        of,
                        samples@,
                        *config,
                        found@[k],
                        prints[k],
                    );
                }
                let picks = lemma_printed_are_picked(found@, prints, n);
                let spans = diarizer::printed_spans(found@, prints, n);
                let embeddings = diarizer::printed(prints, n);
                assert(picks.map_values(|i: int| (found@[i].start, found@[i].end)) =~= spans);
                assert(picks.map_values(|i: int| prints[i]->0) =~= embeddings);
                let labels = choose|labels: Seq<usize>| #[trigger]
                    clustering::labels_speakers(
                        embeddings,
                        config.clustering_threshold,
                        self.units(),
                        self.dot,
                        self.embedding_extractor.count_of,
                        labels,
                    ) && segments@ == diarizer::joined(
                        order::sorted_by_start(diarizer::spoken(spans, labels)),
                        self.tolerance,
                    );
                lemma_told(time_of, self.tolerance, spans, labels);
                if spans.len() * spans.len() <= usize::MAX {
                    assert forall|similarity: spec_fn(int, int) -> A| #[trigger]
                        are_similarities(
                            of,
                            embeddings,
                            self.dot,
                            of(self.largest),
                            similarity,
                        ) implies grouping::is_grouping(
                        of,
                        similarity,
                        config.clustering_threshold,
                        spans.len(),
                        labels,
                    ) by {
                        grouping::lemma_grouping(
                            of,
                            similarity,
                            embeddings,
                            config.clustering_threshold,
                            self.units(),
                            self.dot,
                            self.embedding_extractor.count_of,
                            labels,
                        );
                    }
                }
                assert(is_told(time_of, self.tolerance, spans, labels, segments@));
                assert(self.is_telling_of(time_of, of, *config, spans, embeddings, segments@));
                assert(names_printed(prints, n, picks));
                assert(self.is_telling(
                    time_of,
                    of,
                    samples@,
                    *config,
                    found@,
                    prints,
                    segments@,
                ));
            }
        }
    }
}

} // verus!
