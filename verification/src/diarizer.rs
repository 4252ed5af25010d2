//! From embedded stretches of speech to segments with a speaker each.

use crate::clustering;
use crate::clustering::{cluster, Units};
use crate::embedding::{EmbeddingExtractor, RawPrint, Spectrum, VoicePrint};
use crate::functions;
use crate::functions::divided;
use crate::order;
use crate::order::sort_by_start;
use crate::scalar;
use crate::segmentation::{Answer, SegmentationEngine};
use crate::tensor::Tensor;
use crate::types::{DiarizationConfig, DiarizationError, DiarizationSegment, SpeakerEmbedding};
use core::ops::{Add, Div, Mul, Sub};
use vstd::prelude::*;
#[allow(unused_imports)]
use vstd::std_specs::ops::{AddSpec, DivSpec, MulSpec, SubSpec};

verus! {

/// Tells whether the samples `[start, end)` are a stretch of a recording of
/// `total` samples.
pub fn usable_range(start: usize, end: usize, total: usize) -> (usable: bool)
    ensures
        usable <==> start < end <= total,
{
    start < total && end <= total && start < end
}

/// The stretches of speech that could be embedded, in the order in which they
/// were recorded.
pub struct EmbeddedSpeech<T, E> {
    pub spans: Vec<(T, T)>,
    pub embeddings: Vec<SpeakerEmbedding<E>>,
}

impl<T: Copy, E> EmbeddedSpeech<T, E> {
    /// Each stretch has one embedding.
    pub open spec fn valid(&self) -> bool {
        self.spans@.len() == self.embeddings@.len()
    }

    /// No stretch yet.
    pub fn new() -> (speech: Self)
        ensures
            speech.valid(),
            speech.spans@ == Seq::<(T, T)>::empty(),
            speech.embeddings@ == Seq::<SpeakerEmbedding<E>>::empty(),
    {
        EmbeddedSpeech { spans: Vec::new(), embeddings: Vec::new() }
    }

    /// Adds a stretch with its embedding; one that could not be embedded is left
    /// out.
    pub fn record(
        &mut self,
        segment: DiarizationSegment<T>,
        extracted: Result<SpeakerEmbedding<E>, DiarizationError>,
    )
        requires
            old(self).valid(),
        ensures
            final(self).valid(),
            match extracted {
                Ok(embedding) => final(self).spans@ == old(self).spans@.push(
                    (segment.start, segment.end),
                ) && final(self).embeddings@ == old(self).embeddings@.push(embedding),
                Err(_) => *final(self) == *old(self),
            },
    {
        match extracted {
            Ok(embedding) => {
                self.spans.push((segment.start, segment.end));
                self.embeddings.push(embedding);
            },
            Err(_) => {},
        }
    }
}

/// Each stretch as a segment of the speaker that it is labelled with.
pub open spec fn spoken<T>(spans: Seq<(T, T)>, labels: Seq<usize>) -> Seq<DiarizationSegment<T>> {
    Seq::new(
        spans.len(),
        |i: int| DiarizationSegment { start: spans[i].0, end: spans[i].1, speaker_id: labels[i] },
    )
}

/// The segment continues the one before it: same speaker, and no later than
/// `tolerance` after its end.
pub open spec fn continues<T: PartialOrd + Add<Output = T>>(
    last: DiarizationSegment<T>,
    segment: DiarizationSegment<T>,
    tolerance: T,
) -> bool {
    segment.speaker_id == last.speaker_id && scalar::le(
        segment.start,
        last.end.add_spec(tolerance),
    )
}

/// A segment together with one that continues it.
pub open spec fn extended<T: PartialOrd>(
    last: DiarizationSegment<T>,
    segment: DiarizationSegment<T>,
) -> DiarizationSegment<T> {
    DiarizationSegment {
        start: last.start,
        end: if scalar::gt(segment.end, last.end) {
            segment.end
        } else {
            last.end
        },
        speaker_id: last.speaker_id,
    }
}

/// The first `n` segments, each joined to the one before it where it continues
/// that.
pub open spec fn joined_upto<T: PartialOrd + Add<Output = T>>(
    segments: Seq<DiarizationSegment<T>>,
    tolerance: T,
    n: int,
) -> Seq<DiarizationSegment<T>>
    decreases n,
{
    if n <= 0 {
        Seq::empty()
    } else {
        let sofar = joined_upto(segments, tolerance, n - 1);
        if sofar.len() > 0 && continues(sofar.last(), segments[n - 1], tolerance) {
            sofar.drop_last().push(extended(sofar.last(), segments[n - 1]))
        } else {
            sofar.push(segments[n - 1])
        }
    }
}

/// The segments, each joined to the one before it where it continues that.
pub open spec fn joined<T: PartialOrd + Add<Output = T>>(
    segments: Seq<DiarizationSegment<T>>,
    tolerance: T,
) -> Seq<DiarizationSegment<T>> {
    joined_upto(segments, tolerance, segments.len() as int)
}

/// One of the first `n` segments ends at `end`.
spec fn is_end<T>(segments: Seq<DiarizationSegment<T>>, n: int, end: T) -> bool {
    exists|i: int| 0 <= i < n && (#[trigger] segments[i]).end == end
}

proof fn lemma_joined_ends<T: PartialOrd + Add<Output = T>>(
    segments: Seq<DiarizationSegment<T>>,
    tolerance: T,
    n: int,
)
    requires
        0 <= n <= segments.len(),
    ensures
        joined_upto(segments, tolerance, n).len() <= n,
        n > 0 ==> joined_upto(segments, tolerance, n).len() > 0,
        forall|k: int|
            0 <= k < joined_upto(segments, tolerance, n).len() ==> is_end(
                segments,
                n,
                (#[trigger] joined_upto(segments, tolerance, n)[k]).end,
            ),
    decreases n,
{
    if n > 0 {
        lemma_joined_ends(segments, tolerance, n - 1);
        let sofar = joined_upto(segments, tolerance, n - 1);
        let now = joined_upto(segments, tolerance, n);
        assert forall|k: int| 0 <= k < now.len() implies is_end(
            segments,
            n,
            (#[trigger] now[k]).end,
        ) by {
            if now[k].end == segments[n - 1].end {
            } else {
                assert(now[k].end == sofar[k].end);
                assert(is_end(segments, n - 1, sofar[k].end));
                let i = choose|i: int|
                    0 <= i < n - 1 && (#[trigger] segments[i]).end == sofar[k].end;
                assert(segments[i].end == now[k].end);
            }
        }
    }
}

/// Joins segments of the same speaker that touch or overlap, allowing for a gap
/// of `tolerance`.
pub fn merge_segments<T: Copy + PartialOrd + Add<Output = T>>(
    segments: &Vec<DiarizationSegment<T>>,
    tolerance: T,
) -> (merged: Vec<DiarizationSegment<T>>)
    requires
        scalar::ordered::<T>(),
        T::obeys_add_spec(),
        forall|k: int|
            0 <= k < segments@.len() ==> (#[trigger] segments@[k]).end.add_req(tolerance),
    ensures
        merged@ == joined(segments@, tolerance),
{
    let mut merged: Vec<DiarizationSegment<T>> = Vec::new();
    let mut next: usize = 0;
    while next < segments.len()
        invariant
            next <= segments@.len(),
            scalar::ordered::<T>(),
            T::obeys_add_spec(),
            forall|k: int|
                0 <= k < segments@.len() ==> (#[trigger] segments@[k]).end.add_req(tolerance),
            merged@ == joined_upto(segments@, tolerance, next as int),
        decreases segments@.len() - next,
    {
        let segment: DiarizationSegment<T> = segments[next];
        if merged.len() == 0 {
            merged.push(segment);
        } else {
            let at: usize = merged.len() - 1;
            let last: DiarizationSegment<T> = merged[at];
            proof {
                lemma_joined_ends(segments@, tolerance, next as int);
                assert(is_end(segments@, next as int, last.end));
                let i = choose|i: int|
                    0 <= i < next && (#[trigger] segments@[i]).end == last.end;
                assert(segments@[i].end.add_req(tolerance));
            }
            if segment.speaker_id == last.speaker_id && segment.start <= last.end + tolerance {
                let ghost sofar = merged@;
                if segment.end > last.end {
                    merged.set(
                        at,
                        DiarizationSegment {
                            start: last.start,
                            end: segment.end,
                            speaker_id: last.speaker_id,
                        },
                    );
                }
                proof {
                    assert(merged@ =~= sofar.drop_last().push(extended(last, segment)));
                }
            } else {
                merged.push(segment);
            }
        }
        next = next + 1;
    }
    merged
}

/// Gives each stretch its speaker, puts the segments in order and joins those
/// that continue each other.
pub fn resolve_speakers<T, S, E, D, C>(
    speech: &EmbeddedSpeech<T, E>,
    tolerance: T,
    threshold: S,
    units: Units<S>,
    dot: &D,
    count_of: &C,
) -> (segments: Vec<DiarizationSegment<T>>)
    where
        T: Copy + PartialOrd + Add<Output = T>,
        S: Copy + PartialOrd + Add<Output = S> + Sub<Output = S> + Div<Output = S>,
        D: Fn(&E, &E) -> S,
        C: Fn(usize) -> S,

    requires
        speech.valid(),
        scalar::ordered::<T>(),
        scalar::ordered::<S>(),
        T::obeys_add_spec(),
        S::obeys_add_spec(),
        S::obeys_sub_spec(),
        S::obeys_div_spec(),
        clustering::computable(speech.embeddings@, units, *dot, *count_of),
        scalar::linear(speech.spans@.map_values(|span: (T, T)| span.0).to_set()),
        forall|k: int|
            0 <= k < speech.spans@.len() ==> (#[trigger] speech.spans@[k]).1.add_req(tolerance),
    ensures
        exists|labels: Seq<usize>| #[trigger]
            clustering::labels_speakers(
                speech.embeddings@,
                threshold,
                units,
                *dot,
                *count_of,
                labels,
            ) && segments@ == joined(
                order::sorted_by_start(spoken(speech.spans@, labels)),
                tolerance,
            ),
{
    let labels: Vec<usize> = cluster(
        speech.embeddings.as_slice(),
        threshold,
        units,
        dot,
        count_of,
    );
    let mut unsorted: Vec<DiarizationSegment<T>> = Vec::new();
    let mut next: usize = 0;
    while next < speech.spans.len()
        invariant
            next <= speech.spans@.len(),
            labels@.len() == speech.spans@.len(),
            unsorted@ == spoken(speech.spans@, labels@).take(next as int),
        decreases speech.spans@.len() - next,
    {
        let (start, end): (T, T) = speech.spans[next];
        unsorted.push(DiarizationSegment { start, end, speaker_id: labels[next] });
        next = next + 1;
        proof {
            assert(unsorted@ =~= spoken(speech.spans@, labels@).take(next as int));
        }
    }
    proof {
        assert(unsorted@ =~= spoken(speech.spans@, labels@));
        assert(order::starts(unsorted@) =~= speech.spans@.map_values(
            |span: (T, T)| span.0,
        ).to_set()) by {
            assert(unsorted@.map_values(|s: DiarizationSegment<T>| s.start)
                =~= speech.spans@.map_values(|span: (T, T)| span.0));
        }
    }
    let sorted: Vec<DiarizationSegment<T>> = sort_by_start(&unsorted);
    proof {
        let ordering = choose|ordering: Seq<int>|
            order::ordered_by(unsorted@, sorted@, ordering);
        assert forall|k: int| 0 <= k < sorted@.len() implies (#[trigger] sorted@[k]).end.add_req(
            tolerance,
        ) by {
            assert(sorted@[k] == unsorted@[ordering[k]]);
            assert(speech.spans@[ordering[k]].1.add_req(tolerance));
        }
    }
    merge_segments(&sorted, tolerance)
}

/// Tells who spoke when in a recording.
pub struct Diarizer<A, T, N, W, R, C, X, M, K, Q, F, G, D, P> {
    pub segmentation_engine: SegmentationEngine<A, T, N, W, R, C, X, M>,
    pub embedding_extractor: EmbeddingExtractor<A, K, Q, F, G>,
    /// How similar two voice prints are.
    pub dot: D,
    /// Where the search for the closest voices starts.
    pub largest: A,
    /// How many seconds may lie between segments that are joined.
    pub tolerance: T,
    /// Who is told of a segment that no voice print could be made of, and why.
    pub report: P,
}

/// The stretches of the first `n` segments that have a voice print.
pub open spec fn printed_spans<T, E>(
    found: Seq<DiarizationSegment<T>>,
    prints: Seq<Option<SpeakerEmbedding<E>>>,
    n: int,
) -> Seq<(T, T)>
    decreases n,
{
    if n <= 0 {
        Seq::empty()
    } else if prints[n - 1] is Some {
        printed_spans(found, prints, n - 1).push((found[n - 1].start, found[n - 1].end))
    } else {
        printed_spans(found, prints, n - 1)
    }
}

/// The voice prints among the first `n`.
pub open spec fn printed<E>(
    prints: Seq<Option<SpeakerEmbedding<E>>>,
    n: int,
) -> Seq<SpeakerEmbedding<E>>
    decreases n,
{
    if n <= 0 {
        Seq::empty()
    } else if prints[n - 1] is Some {
        printed(prints, n - 1).push(prints[n - 1]->0)
    } else {
        printed(prints, n - 1)
    }
}

impl<A, T, N, W, R, C, X, M, K, Q, F, G, D, P> Diarizer<
    A,
    T,
    N,
    W,
    R,
    C,
    X,
    M,
    K,
    Q,
    F,
    G,
    D,
    P,
> where
    A: Copy + PartialOrd + Add<Output = A> + Sub<Output = A> + Mul<Output = A> + Div<Output = A>,
    T: Copy + PartialOrd + Add<Output = T> + Mul<Output = T> + Div<Output = T>,
    N: Fn(usize) -> T,
    W: Fn(T) -> usize,
    R: Fn(T) -> usize,
    C: Fn(T) -> usize,
    X: Fn(A) -> A,
    M: Fn(&Tensor<A>) -> Answer<A>,
    K: Fn(usize) -> A,
    Q: Fn(A) -> A,
    F: Fn(&[A]) -> Spectrum<A>,
    G: Fn(&Tensor<A>) -> RawPrint<A>,
    D: Fn(&Vec<A>, &Vec<A>) -> A,
    P: Fn(&DiarizationSegment<T>, &DiarizationError),
 {
    /// The numbers that grouping the voice prints starts from.
    pub open spec fn units(self) -> Units<A> {
        Units {
            zero: self.embedding_extractor.zero,
            one: self.segmentation_engine.rules.one,
            largest: self.largest,
        }
    }

    /// The sample at a time.
    pub open spec fn sample_at(self, config: DiarizationConfig<T, A>, time: T) -> usize {
        functions::value(
            self.segmentation_engine.clock.whole,
            time.mul_spec(self.segmentation_engine.rate(config)),
        )
    }

    /// A segment has samples of the recording, and no others.
    pub open spec fn in_recording(
        self,
        samples: Seq<A>,
        config: DiarizationConfig<T, A>,
        segment: DiarizationSegment<T>,
    ) -> bool {
        self.sample_at(config, segment.start) < self.sample_at(config, segment.end)
            <= samples.len()
    }

    /// The samples of a segment.
    pub open spec fn stretch(
        self,
        samples: Seq<A>,
        config: DiarizationConfig<T, A>,
        segment: DiarizationSegment<T>,
    ) -> Seq<A> {
        samples.subrange(
            self.sample_at(config, segment.start) as int,
            self.sample_at(config, segment.end) as int,
        )
    }

    /// This may come of making the voice print of a segment: none if the segment
    /// does not lie in the recording or the extractor fails.
    pub open spec fn may_print(
        self,
        samples: Seq<A>,
        config: DiarizationConfig<T, A>,
        segment: DiarizationSegment<T>,
        print: Option<SpeakerEmbedding<Vec<A>>>,
    ) -> bool {
        match print {
            Some(embedding) => self.in_recording(samples, config, segment)
                && self.embedding_extractor.extracts(
                self.stretch(samples, config, segment),
                Ok(embedding),
            ),
            None => self.in_recording(samples, config, segment) ==> exists|error: DiarizationError|
                #[trigger]
                self.embedding_extractor.extracts(
                    self.stretch(samples, config, segment),
                    Err(error),
                ),
        }
    }

    /// These may be the voice prints of the first segments.
    pub open spec fn may_print_all(
        self,
        samples: Seq<A>,
        config: DiarizationConfig<T, A>,
        found: Seq<DiarizationSegment<T>>,
        prints: Seq<Option<SpeakerEmbedding<Vec<A>>>>,
    ) -> bool {
        &&& prints.len() <= found.len()
        &&& forall|k: int|
            0 <= k < prints.len() ==> self.may_print(
                samples,
                config,
                found[k],
                #[trigger] prints[k],
            )
    }

    /// Voice prints can be made of the segments, and their speakers be told apart.
    pub open spec fn found_fits(
        self,
        samples: Seq<A>,
        config: DiarizationConfig<T, A>,
        found: Seq<DiarizationSegment<T>>,
    ) -> bool {
        let rate = self.segmentation_engine.rate(config);
        &&& forall|k: int|
            0 <= k < found.len() ==> {
                &&& (#[trigger] found[k]).start.mul_req(rate)
                &&& found[k].end.mul_req(rate)
                &&& found[k].end.add_req(self.tolerance)
                &&& self.in_recording(samples, config, found[k]) ==> self.embedding_extractor.fits(
                    self.stretch(samples, config, found[k]),
                )
            }
        &&& forall|prints: Seq<Option<SpeakerEmbedding<Vec<A>>>>|
            prints.len() == found.len() && #[trigger] self.may_print_all(
                samples,
                config,
                found,
                prints,
            ) ==> clustering::computable(
                printed(prints, found.len() as int),
                self.units(),
                self.dot,
                self.embedding_extractor.count_of,
            )
    }

    /// Any failure can be reported.
    pub open spec fn can_report(self) -> bool {
        forall|segment: &DiarizationSegment<T>, error: &DiarizationError| #[trigger]
            self.report.requires((segment, error))
    }

    /// The diarizer can work on the recording, whatever the models say.
    pub open spec fn fits(self, samples: Seq<A>, config: DiarizationConfig<T, A>) -> bool {
        &&& self.segmentation_engine.fits(samples, config)
        &&& self.can_report()
        &&& forall|found: Vec<DiarizationSegment<T>>| #[trigger]
            self.segmentation_engine.segments(samples, config, Ok(found)) ==> self.found_fits(
                samples,
                config,
                found@,
            )
    }

    /// These are the segments with their speakers, from the voice prints.
    pub open spec fn tells(
        self,
        config: DiarizationConfig<T, A>,
        found: Seq<DiarizationSegment<T>>,
        prints: Seq<Option<SpeakerEmbedding<Vec<A>>>>,
        segments: Seq<DiarizationSegment<T>>,
    ) -> bool {
        exists|labels: Seq<usize>| #[trigger]
            clustering::labels_speakers(
                printed(prints, found.len() as int),
                config.clustering_threshold,
                self.units(),
                self.dot,
                self.embedding_extractor.count_of,
                labels,
            ) && segments == joined(
                order::sorted_by_start(
                    spoken(printed_spans(found, prints, found.len() as int), labels),
                ),
                self.tolerance,
            )
    }

    /// This is what diarizing the recording may come to.
    pub open spec fn diarizes(
        self,
        samples: Seq<A>,
        config: DiarizationConfig<T, A>,
        made: Result<Vec<DiarizationSegment<T>>, DiarizationError>,
    ) -> bool {
        if samples.len() == 0 {
            made matches Ok(segments) && segments@.len() == 0
        } else {
            match made {
                Err(error) => self.segmentation_engine.segments(
                    samples,
                    config,
                    Err::<Vec<DiarizationSegment<T>>, DiarizationError>(error),
                ),
                Ok(segments) => exists|
                    found: Vec<DiarizationSegment<T>>,
                    prints: Seq<Option<SpeakerEmbedding<Vec<A>>>>,
                |
                    self.segmentation_engine.segments(samples, config, Ok(found)) && prints.len()
                        == found@.len() && #[trigger] self.may_print_all(
                        samples,
                        config,
                        found@,
                        prints,
                    ) && self.tells(config, found@, prints, segments@),
            }
        }
    }

    /// A diarizer that finds speech and makes voice prints so.
    pub fn new(
        segmentation_engine: SegmentationEngine<A, T, N, W, R, C, X, M>,
        embedding_extractor: EmbeddingExtractor<A, K, Q, F, G>,
        dot: D,
        largest: A,
        tolerance: T,
        report: P,
    ) -> (diarizer: Self)
        ensures
            diarizer == (Diarizer {
                segmentation_engine,
                embedding_extractor,
                dot,
                largest,
                tolerance,
                report,
            }),
    {
        Diarizer { segmentation_engine, embedding_extractor, dot, largest, tolerance, report }
    }

    /// A standard diarizer, which joins segments of a speaker that lie no more than a
    /// hundredth of a second apart.
    pub fn standard(
        segmentation_engine: SegmentationEngine<A, T, N, W, R, C, X, M>,
        embedding_extractor: EmbeddingExtractor<A, K, Q, F, G>,
        dot: D,
        largest: A,
        report: P,
    ) -> (diarizer: Self)
        requires
            T::obeys_div_spec(),
            functions::steady(segmentation_engine.clock.count_of),
            functions::fraction_fits(segmentation_engine.clock.count_of, 1, 100),
        ensures
            diarizer == (Diarizer {
                segmentation_engine,
                embedding_extractor,
                dot,
                largest,
                tolerance: functions::fraction(segmentation_engine.clock.count_of, 1, 100),
                report,
            }),
    {
        let tolerance: T = divided(&segmentation_engine.clock.count_of, 1, 100);
        Diarizer { segmentation_engine, embedding_extractor, dot, largest, tolerance, report }
    }

    /// Makes the voice prints of the segments that lie in the recording.
    fn embed_all(
        &self,
        samples: &[A],
        config: &DiarizationConfig<T, A>,
        found: &Vec<DiarizationSegment<T>>,
    ) -> (embedded: (EmbeddedSpeech<T, Vec<A>>, Ghost<Seq<Option<SpeakerEmbedding<Vec<A>>>>>))
        requires
            self.segmentation_engine.ready(*config, samples@.len() as int),
            self.found_fits(samples@, *config, found@),
            self.can_report(),
        ensures
            embedded.0.valid(),
            embedded.1@.len() == found@.len(),
            self.may_print_all(samples@, *config, found@, embedded.1@),
            embedded.0.spans@ == printed_spans(found@, embedded.1@, found@.len() as int),
            embedded.0.embeddings@ == printed(embedded.1@, found@.len() as int),
    {
        let rate: T = (self.segmentation_engine.clock.count_of)(config.sample_rate as usize);
        let mut speech: EmbeddedSpeech<T, Vec<A>> = EmbeddedSpeech::new();
        let ghost mut prints: Seq<Option<SpeakerEmbedding<Vec<A>>>> = Seq::empty();
        let mut next: usize = 0;
        while next < found.len()
            invariant
                next <= found@.len(),
                self.segmentation_engine.ready(*config, samples@.len() as int),
                self.found_fits(samples@, *config, found@),
                self.can_report(),
                rate == self.segmentation_engine.rate(*config),
                speech.valid(),
                prints.len() == next,
                self.may_print_all(samples@, *config, found@, prints),
                speech.spans@ == printed_spans(found@, prints, next as int),
                speech.embeddings@ == printed(prints, next as int),
            decreases found@.len() - next,
        {
            let segment: DiarizationSegment<T> = found[next];
            proof {
                assert(found@[next as int].start.mul_req(rate));
            }
            let start: usize = (self.segmentation_engine.clock.whole)(segment.start * rate);
            let end: usize = (self.segmentation_engine.clock.whole)(segment.end * rate);
            let ghost earlier = prints;
            if usable_range(start, end, samples.len()) {
                let (lower, _upper) = samples.split_at(end);
                let (_lower, stretch) = lower.split_at(start);
                proof {
                    assert(stretch@ =~= self.stretch(samples@, *config, segment));
                    assert(self.in_recording(samples@, *config, found@[next as int]));
                }
                let extracted: VoicePrint<A> = self.embedding_extractor.extract_embedding(
                    stretch,
                    config,
                );
                proof {
                    prints =
                    prints.push(
                        if extracted is Ok {
                            Some(extracted->Ok_0)
                        } else {
                            None
                        },
                    );
                }
                if let Err(error) = &extracted {
                    (self.report)(&segment, error);
                }
                speech.record(segment, extracted);
            } else {
                proof {
                    prints = prints.push(None);
                }
            }
            proof {
                lemma_printed_prefix(found@, earlier, prints[next as int], next as int);
                assert(self.may_print(samples@, *config, found@[next as int], prints[next as int]));
                assert(prints =~= earlier.push(prints[next as int]));
                assert(self.may_print_all(samples@, *config, found@, prints));
            }
            next = next + 1;
        }
        (speech, Ghost(prints))
    }

    /// Tells who spoke when: finds speech, makes the voice print of each stretch,
    /// groups the prints by speaker and joins what continues.
    pub fn diarize(&self, samples: &[A], config: &DiarizationConfig<T, A>) -> (made: Result<
        Vec<DiarizationSegment<T>>,
        DiarizationError,
    >)
        requires
            self.fits(samples@, *config),
        ensures
            self.diarizes(samples@, *config, made),
    {
        if samples.len() == 0 {
            return Ok(Vec::new());
        }
        let found: Vec<DiarizationSegment<T>> = match self.segmentation_engine.segment(
            samples,
            config,
        ) {
            Ok(found) => found,
            Err(error) => {
                return Err(error);
            },
        };
        let (speech, Ghost(prints)) = self.embed_all(samples, config, &found);
        let units: Units<A> = Units {
            zero: self.embedding_extractor.zero,
            one: self.segmentation_engine.rules.one,
            largest: self.largest,
        };
        proof {
            self.segmentation_engine.lemma_segments_line_up(samples@, *config, found);
            lemma_printed_spans(found@, prints, found@.len() as int);
            lemma_span_starts(found@, speech.spans@);
        }
        let segments: Vec<DiarizationSegment<T>> = resolve_speakers(
            &speech,
            self.tolerance,
            config.clustering_threshold,
            units,
            &self.dot,
            &self.embedding_extractor.count_of,
        );
        Ok(segments)
    }

    /// Whatever the models say, the segments come in order of their starts, and
    /// none continues the one before it.
    pub proof fn law_diarized_segments_are_in_order(
        self,
        samples: Seq<A>,
        config: DiarizationConfig<T, A>,
        segments: Vec<DiarizationSegment<T>>,
        values: Set<T>,
    )
        requires
            self.diarizes(samples, config, Ok(segments)),
            scalar::linear(values),
            forall|found: Vec<DiarizationSegment<T>>| #[trigger]
                self.segmentation_engine.segments(samples, config, Ok(found)) ==> times_in(
                    found@,
                    values,
                ),
        ensures
            order::in_order(segments@),
            forall|k: int|
                0 <= k < segments@.len() - 1 ==> !continues(
                    #[trigger] segments@[k],
                    segments@[k + 1],
                    self.tolerance,
                ),
    {
        if samples.len() > 0 {
            let (found, prints) = choose|
                found: Vec<DiarizationSegment<T>>,
                prints: Seq<Option<SpeakerEmbedding<Vec<A>>>>,
            |
                self.segmentation_engine.segments(samples, config, Ok(found)) && prints.len()
                    == found@.len() && #[trigger] self.may_print_all(
                    samples,
                    config,
                    found@,
                    prints,
                ) && self.tells(config, found@, prints, segments@);
            let n = found@.len() as int;
            let spans = printed_spans(found@, prints, n);
            let labels = choose|labels: Seq<usize>| #[trigger]
                clustering::labels_speakers(
                    printed(prints, n),
                    config.clustering_threshold,
                    self.units(),
                    self.dot,
                    self.embedding_extractor.count_of,
                    labels,
                ) && segments@ == joined(
                    order::sorted_by_start(spoken(spans, labels)),
                    self.tolerance,
                );
            lemma_printed_spans(found@, prints, n);
            assert forall|k: int| 0 <= k < spoken(spans, labels).len() implies values.contains(
                (#[trigger] spoken(spans, labels)[k]).start,
            ) && values.contains(spoken(spans, labels)[k].end) by {
                assert(is_found(found@, n, spans[k]));
                let i = choose|i: int|
                    0 <= i < n && (#[trigger] found@[i]).start == spans[k].0 && found@[i].end
                        == spans[k].1;
                assert(values.contains(found@[i].start));
            }
            law_every_stretch_is_told(spans, labels, self.tolerance, values);
            assert forall|k: int| 0 <= k < segments@.len() - 1 implies !continues(
                #[trigger] segments@[k],
                segments@[k + 1],
                self.tolerance,
            ) by {
                law_joined_segments_stand_apart(
                    order::sorted_by_start(spoken(spans, labels)),
                    self.tolerance,
                    k,
                );
            }
        }
    }

    /// Speakers are numbered in the order in which they first speak.
    pub proof fn law_speakers_are_numbered_by_appearance(
        self,
        samples: Seq<A>,
        config: DiarizationConfig<T, A>,
        segments: Vec<DiarizationSegment<T>>,
    )
        requires
            self.fits(samples, config),
            self.diarizes(samples, config, Ok(segments)),
        ensures
            clustering::numbered_by_appearance(speakers(segments@)),
    {
        if samples.len() > 0 {
            let (found, prints) = choose|
                found: Vec<DiarizationSegment<T>>,
                prints: Seq<Option<SpeakerEmbedding<Vec<A>>>>,
            |
                self.segmentation_engine.segments(samples, config, Ok(found)) && prints.len()
                    == found@.len() && #[trigger] self.may_print_all(
                    samples,
                    config,
                    found@,
                    prints,
                ) && self.tells(config, found@, prints, segments@);
            let n = found@.len() as int;
            let spans = printed_spans(found@, prints, n);
            let labels = choose|labels: Seq<usize>| #[trigger]
                clustering::labels_speakers(
                    printed(prints, n),
                    config.clustering_threshold,
                    self.units(),
                    self.dot,
                    self.embedding_extractor.count_of,
                    labels,
                ) && segments@ == joined(
                    order::sorted_by_start(spoken(spans, labels)),
                    self.tolerance,
                );
            self.segmentation_engine.lemma_segments_line_up(samples, config, found);
            lemma_printed_spans(found@, prints, n);
            lemma_printed_in_order(found@, prints, n);
            lemma_span_starts(found@, spans);
            let told = spoken(spans, labels);
            assert(order::starts(told) =~= spans.map_values(|span: (T, T)| span.0).to_set()) by {
                assert(told.map_values(|s: DiarizationSegment<T>| s.start) =~= spans.map_values(
                    |span: (T, T)| span.0,
                ));
            }
            assert(order::in_order(told)) by {
                assert forall|i: int, j: int| 0 <= i < j < told.len() implies scalar::le(
                    (#[trigger] told[i]).start,
                    (#[trigger] told[j]).start,
                ) by {
                    assert(scalar::le(spans[i].0, spans[j].0));
                }
            }
            order::law_sorting_keeps_what_is_in_order(told);
            assert(speakers(told) =~= labels);
            lemma_joined_appearance(told, self.tolerance, told.len() as int);
        } else {
            assert(speakers(segments@).len() == 0);
        }
    }

    /// The numbers that the voices have in the segments found never reach the result:
    /// two diarizers that make and compare voice prints alike come to the same, if
    /// they find speech at the same times.
    pub proof fn law_voice_numbers_do_not_matter(
        self,
        other: Self,
        samples: Seq<A>,
        config: DiarizationConfig<T, A>,
        segments: Vec<DiarizationSegment<T>>,
        others: Vec<DiarizationSegment<T>>,
    )
        requires
            self.embedding_extractor == other.embedding_extractor,
            self.dot == other.dot,
            self.largest == other.largest,
            self.tolerance == other.tolerance,
            self.segmentation_engine.clock == other.segmentation_engine.clock,
            self.segmentation_engine.rules.one == other.segmentation_engine.rules.one,
            forall|found: Vec<DiarizationSegment<T>>, again: Vec<DiarizationSegment<T>>|
                #[trigger] self.segmentation_engine.segments(samples, config, Ok(found))
                    && #[trigger] other.segmentation_engine.segments(samples, config, Ok(again))
                    ==> same_times(found@, again@),
            self.embedding_extractor.filter_repeats(),
            self.embedding_extractor.model_repeats(),
            functions::steady(self.embedding_extractor.count_of),
            functions::reads_contents(self.dot),
            self.diarizes(samples, config, Ok(segments)),
            other.diarizes(samples, config, Ok(others)),
        ensures
            segments@ == others@,
    {
        if samples.len() == 0 {
            assert(segments@ =~= others@);
        } else {
            let (found, prints) = choose|
                found: Vec<DiarizationSegment<T>>,
                prints: Seq<Option<SpeakerEmbedding<Vec<A>>>>,
            |
                self.segmentation_engine.segments(samples, config, Ok(found)) && prints.len()
                    == found@.len() && #[trigger] self.may_print_all(
                    samples,
                    config,
                    found@,
                    prints,
                ) && self.tells(config, found@, prints, segments@);
            let (again, reprints) = choose|
                found: Vec<DiarizationSegment<T>>,
                prints: Seq<Option<SpeakerEmbedding<Vec<A>>>>,
            |
                other.segmentation_engine.segments(samples, config, Ok(found)) && prints.len()
                    == found@.len() && #[trigger] other.may_print_all(
                    samples,
                    config,
                    found@,
                    prints,
                ) && other.tells(config, found@, prints, others@);
            let n = found@.len() as int;
            assert(same_times(found@, again@));
            assert forall|k: int| 0 <= k < n implies same_contents(
                #[trigger] prints[k],
                reprints[k],
            ) by {
                self.lemma_print_repeats(
                    other,
                    samples,
                    config,
                    found@[k],
                    again@[k],
                    prints[k],
                    reprints[k],
                );
            }
            lemma_same_printed(found@, again@, prints, reprints, n);
            let some = printed(prints, n);
            let same = printed(reprints, n);
            lemma_printed_len(prints, n);
            assert(n == found.len());
            let labels = choose|labels: Seq<usize>| #[trigger]
                clustering::labels_speakers(
                    some,
                    config.clustering_threshold,
                    self.units(),
                    self.dot,
                    self.embedding_extractor.count_of,
                    labels,
                ) && segments@ == joined(
                    order::sorted_by_start(spoken(printed_spans(found@, prints, n), labels)),
                    self.tolerance,
                );
            let relabels = choose|labels: Seq<usize>| #[trigger]
                clustering::labels_speakers(
                    same,
                    config.clustering_threshold,
                    other.units(),
                    other.dot,
                    other.embedding_extractor.count_of,
                    labels,
                ) && others@ == joined(
                    order::sorted_by_start(spoken(printed_spans(again@, reprints, n), labels)),
                    other.tolerance,
                );
            clustering::law_labels_go_by_contents(
                some,
                same,
                config.clustering_threshold,
                self.units(),
                self.dot,
                self.embedding_extractor.count_of,
                labels,
                relabels,
            );
        }
    }

    proof fn lemma_print_repeats(
        self,
        other: Self,
        samples: Seq<A>,
        config: DiarizationConfig<T, A>,
        segment: DiarizationSegment<T>,
        again: DiarizationSegment<T>,
        print: Option<SpeakerEmbedding<Vec<A>>>,
        reprint: Option<SpeakerEmbedding<Vec<A>>>,
    )
        requires
            self.embedding_extractor == other.embedding_extractor,
            self.segmentation_engine.clock == other.segmentation_engine.clock,
            self.embedding_extractor.filter_repeats(),
            self.embedding_extractor.model_repeats(),
            segment.start == again.start,
            segment.end == again.end,
            self.may_print(samples, config, segment, print),
            other.may_print(samples, config, again, reprint),
        ensures
            same_contents(print, reprint),
    {
        let stretch = self.stretch(samples, config, segment);
        assert(stretch == other.stretch(samples, config, again));
        if self.in_recording(samples, config, segment) {
            let one: VoicePrint<A> = if print is Some {
                Ok(print->0)
            } else {
                Err(
                    choose|error: DiarizationError| #[trigger]
                        self.embedding_extractor.extracts(stretch, Err(error)),
                )
            };
            let two: VoicePrint<A> = if reprint is Some {
                Ok(reprint->0)
            } else {
                Err(
                    choose|error: DiarizationError| #[trigger]
                        self.embedding_extractor.extracts(stretch, Err(error)),
                )
            };
            self.embedding_extractor.law_same_speech_has_the_same_print(stretch, one, two);
        }
    }
}

/// The speakers of some segments, one after the other.
pub open spec fn speakers<T>(segments: Seq<DiarizationSegment<T>>) -> Seq<usize> {
    segments.map_values(|s: DiarizationSegment<T>| s.speaker_id)
}

/// Segments with the same starts and ends; their numbers may differ.
pub open spec fn same_times<T>(
    found: Seq<DiarizationSegment<T>>,
    again: Seq<DiarizationSegment<T>>,
) -> bool {
    &&& found.len() == again.len()
    &&& forall|k: int|
        0 <= k < found.len() ==> (#[trigger] found[k]).start == again[k].start && found[k].end
            == again[k].end
}

/// Two voice prints with the same numbers, or none.
pub open spec fn same_contents<A>(
    print: Option<SpeakerEmbedding<Vec<A>>>,
    again: Option<SpeakerEmbedding<Vec<A>>>,
) -> bool {
    match (print, again) {
        (Some(one), Some(other)) => one.data@ == other.data@,
        (None, None) => true,
        _ => false,
    }
}

proof fn lemma_same_printed<A, T>(
    found: Seq<DiarizationSegment<T>>,
    again: Seq<DiarizationSegment<T>>,
    prints: Seq<Option<SpeakerEmbedding<Vec<A>>>>,
    reprints: Seq<Option<SpeakerEmbedding<Vec<A>>>>,
    n: int,
)
    requires
        same_times(found, again),
        prints.len() == found.len(),
        reprints.len() == found.len(),
        forall|k: int| 0 <= k < prints.len() ==> same_contents(#[trigger] prints[k], reprints[k]),
        0 <= n <= found.len(),
    ensures
        printed_spans(found, prints, n) == printed_spans(again, reprints, n),
        printed(prints, n).len() == printed(reprints, n).len(),
        forall|k: int|
            0 <= k < printed(prints, n).len() ==> (#[trigger] printed(prints, n)[k]).data@
                == printed(reprints, n)[k].data@,
    decreases n,
{
    if n > 0 {
        lemma_same_printed(found, again, prints, reprints, n - 1);
        assert(same_contents(prints[n - 1], reprints[n - 1]));
        assert(found[n - 1].start == again[n - 1].start);
        let some = printed(prints, n);
        let same = printed(reprints, n);
        let earlier = printed(prints, n - 1);
        let before = printed(reprints, n - 1);
        assert forall|k: int| 0 <= k < some.len() implies (#[trigger] some[k]).data@
            == same[k].data@ by {
            if k < earlier.len() {
                assert(some[k] == earlier[k]);
                assert(same[k] == before[k]);
            }
        }
    }
}

proof fn lemma_printed_len<E>(prints: Seq<Option<SpeakerEmbedding<E>>>, n: int)
    requires
        0 <= n,
    ensures
        printed(prints, n).len() <= n,
    decreases n,
{
    if n > 0 {
        lemma_printed_len(prints, n - 1);
    }
}

/// Stretches with a voice print come in the order of the segments found.
proof fn lemma_printed_in_order<T: PartialOrd, E>(
    found: Seq<DiarizationSegment<T>>,
    prints: Seq<Option<SpeakerEmbedding<E>>>,
    n: int,
)
    requires
        order::in_order(found),
        0 <= n <= found.len(),
    ensures
        forall|i: int, j: int|
            0 <= i < j < printed_spans(found, prints, n).len() ==> scalar::le(
                (#[trigger] printed_spans(found, prints, n)[i]).0,
                (#[trigger] printed_spans(found, prints, n)[j]).0,
            ),
    decreases n,
{
    if n > 0 {
        lemma_printed_in_order(found, prints, n - 1);
        lemma_printed_spans(found, prints, n - 1);
        let spans = printed_spans(found, prints, n);
        let earlier = printed_spans(found, prints, n - 1);
        assert forall|i: int, j: int| 0 <= i < j < spans.len() implies scalar::le(
            (#[trigger] spans[i]).0,
            (#[trigger] spans[j]).0,
        ) by {
            assert(spans[i] == earlier[i]);
            if j < earlier.len() {
                assert(spans[j] == earlier[j]);
            } else {
                assert(is_found(found, n - 1, earlier[i]));
                let k = choose|k: int|
                    0 <= k < n - 1 && (#[trigger] found[k]).start == earlier[i].0 && found[k].end
                        == earlier[i].1;
                assert(scalar::le(found[k].start, found[n - 1].start));
            }
        }
    }
}

/// Joining keeps the order in which speakers first appear.
proof fn lemma_joined_appearance<T: PartialOrd + Add<Output = T>>(
    segments: Seq<DiarizationSegment<T>>,
    tolerance: T,
    n: int,
)
    requires
        clustering::numbered_by_appearance(speakers(segments)),
        0 <= n <= segments.len(),
    ensures
        clustering::numbered_by_appearance(speakers(joined_upto(segments, tolerance, n))),
        forall|i: int|
            0 <= i < n ==> clustering::given_before(
                speakers(joined_upto(segments, tolerance, n)),
                (#[trigger] segments[i]).speaker_id as int,
                joined_upto(segments, tolerance, n).len() as int,
            ),
    decreases n,
{
    if n > 0 {
        lemma_joined_appearance(segments, tolerance, n - 1);
        let sofar = joined_upto(segments, tolerance, n - 1);
        let now = joined_upto(segments, tolerance, n);
        let new = segments[n - 1];
        let tail = now.len() - 1;
        let ids = speakers(now);
        let before = speakers(sofar);
        assert(ids[tail] == new.speaker_id);
        assert forall|k: int| 0 <= k < before.len() implies #[trigger] ids[k] == before[k] by {
            if k < tail {
                assert(now[k] == sofar[k]);
            }
        }
        assert forall|i: int| 0 <= i < n implies clustering::given_before(
            ids,
            (#[trigger] segments[i]).speaker_id as int,
            now.len() as int,
        ) by {
            if i < n - 1 {
                let y = choose|y: int|
                    0 <= y < sofar.len() && #[trigger] before[y] == segments[i].speaker_id;
                assert(ids[y] == segments[i].speaker_id);
            } else {
                assert(ids[tail] == segments[i].speaker_id);
            }
        }
        assert forall|x: int| 0 <= x < ids.len() && #[trigger] ids[x] > 0 implies
            clustering::given_before(ids, ids[x] - 1, x) by {
            if x < before.len() {
                assert(clustering::given_before(before, before[x] - 1, x));
                let y = choose|y: int| 0 <= y < x && #[trigger] before[y] == before[x] - 1;
                assert(ids[y] == ids[x] - 1);
            } else {
                assert(speakers(segments)[n - 1] == new.speaker_id);
                assert(clustering::given_before(
                    speakers(segments),
                    new.speaker_id - 1,
                    n - 1,
                ));
                let i = choose|i: int|
                    0 <= i < n - 1 && #[trigger] speakers(segments)[i] == new.speaker_id - 1;
                assert(clustering::given_before(
                    before,
                    segments[i].speaker_id as int,
                    sofar.len() as int,
                ));
                let y = choose|y: int|
                    0 <= y < sofar.len() && #[trigger] before[y] == segments[i].speaker_id;
                assert(ids[y] == ids[x] - 1);
            }
        }
    }
}

proof fn lemma_printed_prefix<T, E>(
    found: Seq<DiarizationSegment<T>>,
    prints: Seq<Option<SpeakerEmbedding<E>>>,
    more: Option<SpeakerEmbedding<E>>,
    n: int,
)
    requires
        n <= prints.len(),
    ensures
        printed(prints.push(more), n) == printed(prints, n),
        printed_spans(found, prints.push(more), n) == printed_spans(found, prints, n),
    decreases n,
{
    if n > 0 {
        lemma_printed_prefix(found, prints, more, n - 1);
    }
}

/// A stretch is one of the first `n` segments that were found.
pub open spec fn is_found<T>(found: Seq<DiarizationSegment<T>>, n: int, span: (T, T)) -> bool {
    exists|i: int|
        0 <= i < n && (#[trigger] found[i]).start == span.0 && found[i].end == span.1
}

/// Every stretch that has a voice print is a segment that was found.
proof fn lemma_printed_spans<T, E>(
    found: Seq<DiarizationSegment<T>>,
    prints: Seq<Option<SpeakerEmbedding<E>>>,
    n: int,
)
    requires
        0 <= n <= found.len(),
    ensures
        printed_spans(found, prints, n).len() == printed(prints, n).len(),
        forall|k: int|
            0 <= k < printed_spans(found, prints, n).len() ==> is_found(
                found,
                n,
                #[trigger] printed_spans(found, prints, n)[k],
            ),
    decreases n,
{
    if n > 0 {
        lemma_printed_spans(found, prints, n - 1);
        let spans = printed_spans(found, prints, n);
        let earlier = printed_spans(found, prints, n - 1);
        assert forall|k: int| 0 <= k < spans.len() implies is_found(
            found,
            n,
            #[trigger] spans[k],
        ) by {
            if k < earlier.len() {
                assert(is_found(found, n - 1, earlier[k]));
                let i = choose|i: int|
                    0 <= i < n - 1 && (#[trigger] found[i]).start == earlier[k].0 && found[i].end
                        == earlier[k].1;
                assert(found[i].start == spans[k].0);
            } else {
                assert(found[n - 1].start == spans[k].0);
            }
        }
    }
}

/// Stretches start at times that can be compared, if those of the segments can.
proof fn lemma_span_starts<T: PartialOrd>(found: Seq<DiarizationSegment<T>>, spans: Seq<(T, T)>)
    requires
        scalar::linear(order::starts(found)),
        forall|k: int|
            0 <= k < spans.len() ==> is_found(found, found.len() as int, #[trigger] spans[k]),
    ensures
        scalar::linear(spans.map_values(|span: (T, T)| span.0).to_set()),
{
    let keys = found.map_values(|s: DiarizationSegment<T>| s.start);
    let firsts = spans.map_values(|span: (T, T)| span.0);
    assert forall|t: T| #[trigger] firsts.to_set().contains(t) implies order::starts(
        found,
    ).contains(t) by {
        let k = choose|k: int| 0 <= k < firsts.len() && firsts[k] == t;
        assert(is_found(found, found.len() as int, spans[k]));
        let i = choose|i: int|
            0 <= i < found.len() && (#[trigger] found[i]).start == spans[k].0 && found[i].end
                == spans[k].1;
        assert(keys[i] == t);
    }
}

/// After joining, no segment continues the one before it.
pub proof fn law_joined_segments_stand_apart<T: PartialOrd + Add<Output = T>>(
    segments: Seq<DiarizationSegment<T>>,
    tolerance: T,
    k: int,
)
    requires
        0 <= k < joined(segments, tolerance).len() - 1,
    ensures
        !continues(joined(segments, tolerance)[k], joined(segments, tolerance)[k + 1], tolerance),
{
    lemma_apart_upto(segments, tolerance, segments.len() as int, k);
}

proof fn lemma_apart_upto<T: PartialOrd + Add<Output = T>>(
    segments: Seq<DiarizationSegment<T>>,
    tolerance: T,
    n: int,
    k: int,
)
    requires
        0 <= n <= segments.len(),
        0 <= k < joined_upto(segments, tolerance, n).len() - 1,
    ensures
        !continues(
            joined_upto(segments, tolerance, n)[k],
            joined_upto(segments, tolerance, n)[k + 1],
            tolerance,
        ),
    decreases n,
{
    if n > 0 {
        let sofar = joined_upto(segments, tolerance, n - 1);
        if k < sofar.len() - 1 {
            lemma_apart_upto(segments, tolerance, n - 1, k);
        }
    }
}

/// Joining what has been joined changes nothing.
pub proof fn law_joining_twice_is_joining_once<T: PartialOrd + Add<Output = T>>(
    segments: Seq<DiarizationSegment<T>>,
    tolerance: T,
)
    ensures
        joined(joined(segments, tolerance), tolerance) == joined(segments, tolerance),
{
    let once = joined(segments, tolerance);
    assert forall|k: int| 0 <= k < once.len() - 1 implies !continues(
        #[trigger] once[k],
        once[k + 1],
        tolerance,
    ) by {
        law_joined_segments_stand_apart(segments, tolerance, k);
    }
    lemma_apart_is_joined(once, tolerance, once.len() as int);
    assert(once.take(once.len() as int) =~= once);
}

proof fn lemma_apart_is_joined<T: PartialOrd + Add<Output = T>>(
    segments: Seq<DiarizationSegment<T>>,
    tolerance: T,
    n: int,
)
    requires
        0 <= n <= segments.len(),
        forall|k: int|
            0 <= k < segments.len() - 1 ==> !continues(
                #[trigger] segments[k],
                segments[k + 1],
                tolerance,
            ),
    ensures
        joined_upto(segments, tolerance, n) == segments.take(n),
    decreases n,
{
    if n > 0 {
        lemma_apart_is_joined(segments, tolerance, n - 1);
        if n > 1 {
            assert(!continues(segments[n - 2], segments[n - 1], tolerance));
        }
        assert(joined_upto(segments, tolerance, n) =~= segments.take(n));
    } else {
        assert(joined_upto(segments, tolerance, n) =~= segments.take(n));
    }
}

/// All times in these segments are among `values`.
pub open spec fn times_in<T>(segments: Seq<DiarizationSegment<T>>, values: Set<T>) -> bool {
    forall|i: int|
        0 <= i < segments.len() ==> values.contains((#[trigger] segments[i]).start)
            && values.contains(segments[i].end)
}

/// The second segment lies within the first and has the same speaker.
pub open spec fn covers<T: PartialOrd>(
    outer: DiarizationSegment<T>,
    inner: DiarizationSegment<T>,
) -> bool {
    &&& outer.speaker_id == inner.speaker_id
    &&& scalar::le(outer.start, inner.start)
    &&& scalar::le(inner.end, outer.end)
}

/// One of these segments covers another segment.
pub open spec fn covered<T: PartialOrd>(
    segments: Seq<DiarizationSegment<T>>,
    inner: DiarizationSegment<T>,
) -> bool {
    exists|k: int| 0 <= k < segments.len() && covers(#[trigger] segments[k], inner)
}

/// Of segments in order, joining loses nothing: each lies within a joined segment
/// of the same speaker, and the joined segments are in order again.
pub proof fn law_joining_loses_no_speech<T: PartialOrd + Add<Output = T>>(
    segments: Seq<DiarizationSegment<T>>,
    tolerance: T,
    values: Set<T>,
)
    requires
        scalar::linear(values),
        times_in(segments, values),
        order::in_order(segments),
    ensures
        order::in_order(joined(segments, tolerance)),
        forall|i: int|
            0 <= i < segments.len() ==> covered(
                joined(segments, tolerance),
                #[trigger] segments[i],
            ),
{
    lemma_joined_covers(segments, tolerance, values, segments.len() as int);
}

/// Of stretches with a speaker each, put in order and joined, no speech is lost:
/// each stretch lies within a segment of its speaker, and the segments come in
/// order of their starts.
pub proof fn law_every_stretch_is_told<T: PartialOrd + Add<Output = T>>(
    spans: Seq<(T, T)>,
    labels: Seq<usize>,
    tolerance: T,
    values: Set<T>,
)
    requires
        scalar::linear(values),
        times_in(spoken(spans, labels), values),
    ensures
        order::in_order(joined(order::sorted_by_start(spoken(spans, labels)), tolerance)),
        forall|i: int|
            0 <= i < spans.len() ==> covered(
                joined(order::sorted_by_start(spoken(spans, labels)), tolerance),
                #[trigger] spoken(spans, labels)[i],
            ),
{
    let unsorted = spoken(spans, labels);
    let sorted = order::sorted_by_start(unsorted);
    order::lemma_starts_among(unsorted, values);
    order::law_sorting_puts_in_order(unsorted);
    let ordering = choose|ordering: Seq<int>| order::ordered_by(unsorted, sorted, ordering);
    assert forall|k: int| 0 <= k < sorted.len() implies values.contains(
        (#[trigger] sorted[k]).start,
    ) && values.contains(sorted[k].end) by {
        assert(sorted[k] == unsorted[ordering[k]]);
    }
    law_joining_loses_no_speech(sorted, tolerance, values);
    assert forall|i: int| 0 <= i < spans.len() implies covered(
        joined(sorted, tolerance),
        #[trigger] unsorted[i],
    ) by {
        assert(ordering.contains(i));
        let at = choose|at: int| 0 <= at < ordering.len() && ordering[at] == i;
        assert(sorted[at] == unsorted[i]);
    }
}

proof fn lemma_joined_covers<T: PartialOrd + Add<Output = T>>(
    segments: Seq<DiarizationSegment<T>>,
    tolerance: T,
    values: Set<T>,
    n: int,
)
    requires
        scalar::linear(values),
        times_in(segments, values),
        order::in_order(segments),
        0 <= n <= segments.len(),
    ensures
        times_in(joined_upto(segments, tolerance, n), values),
        order::in_order(joined_upto(segments, tolerance, n)),
        forall|k: int|
            0 <= k < joined_upto(segments, tolerance, n).len() && n < segments.len() ==> scalar::le(
                (#[trigger] joined_upto(segments, tolerance, n)[k]).start,
                segments[n].start,
            ),
        forall|i: int|
            0 <= i < n ==> covered(
                joined_upto(segments, tolerance, n),
                #[trigger] segments[i],
            ),
    decreases n,
{
    if n > 0 {
        lemma_joined_covers(segments, tolerance, values, n - 1);
        let sofar = joined_upto(segments, tolerance, n - 1);
        let now = joined_upto(segments, tolerance, n);
        let new = segments[n - 1];
        let tail = now.len() - 1;
        assert(values.contains(new.start) && values.contains(new.end));
        assert(scalar::le(new.end, new.end));
        assert(scalar::le(new.start, new.start));
        if sofar.len() > 0 && continues(sofar.last(), new, tolerance) {
            let last = sofar.last();
            assert(last == sofar[sofar.len() - 1]);
            assert(scalar::le(last.end, new.end) == !scalar::lt(new.end, last.end));
            assert(scalar::le(new.end, last.end) == !scalar::lt(last.end, new.end));
            assert(scalar::le(last.end, last.end));
            assert(scalar::le(last.end, now[tail].end));
            assert(scalar::le(new.end, now[tail].end));
        }
        assert forall|i: int| 0 <= i < n implies covered(now, #[trigger] segments[i]) by {
            if i == n - 1 {
                assert(covers(now[tail], segments[i]));
            } else {
                assert(covered(sofar, segments[i]));
                let k = choose|k: int|
                    0 <= k < sofar.len() && covers(#[trigger] sofar[k], segments[i]);
                assert(values.contains(segments[i].end));
                if k < tail {
                    assert(now[k] == sofar[k]);
                    assert(covers(now[k], segments[i]));
                } else {
                    assert(covers(now[tail], segments[i]));
                }
            }
        }
        assert forall|k: int|
            0 <= k < now.len() && n < segments.len() implies scalar::le(
            (#[trigger] now[k]).start,
            segments[n].start,
        ) by {
            assert(values.contains(segments[n].start));
            assert(scalar::le(segments[n - 1].start, segments[n].start));
            if k < sofar.len() {
                assert(now[k].start == sofar[k].start);
                assert(scalar::le(sofar[k].start, new.start));
            }
        }
        assert forall|a: int, b: int| 0 <= a < b < now.len() implies scalar::le(
            (#[trigger] now[a]).start,
            (#[trigger] now[b]).start,
        ) by {
            assert(now[a].start == sofar[a].start);
            if b < sofar.len() {
                assert(now[b].start == sofar[b].start);
            }
        }
    }
}

} // verus!
