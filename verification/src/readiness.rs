//! When the stages of the pipeline can work: where arithmetic never leaves the number
//! types, they ask nothing more than that what they are given makes sense.

use crate::activity;
use crate::alignment;
use crate::clustering;
use crate::clustering::Units;
use crate::diarizer;
use crate::diarizer::Diarizer;
use crate::embedding;
use crate::embedding::{EmbeddingExtractor, RawPrint, Spectrum};
use crate::functions;
use crate::order;
use crate::scalar;
use crate::segmentation;
use crate::segmentation::{Answer, Scores, SegmentationEngine};
use crate::tensor::Tensor;
use crate::types::{DiarizationConfig, DiarizationError, DiarizationSegment, SpeakerEmbedding};
use core::ops::{Add, Div, Mul, Sub};
use vstd::prelude::*;
#[allow(unused_imports)]
use vstd::std_specs::ops::{AddSpec, DivSpec, MulSpec, SubSpec};

verus! {

/// Any two numbers can be added.
pub open spec fn can_add<T: Add<Output = T>>() -> bool {
    &&& T::obeys_add_spec()
    &&& forall|x: T, y: T| #[trigger] x.add_req(y)
}

/// Any two numbers can be subtracted.
pub open spec fn can_subtract<T: Sub<Output = T>>() -> bool {
    &&& T::obeys_sub_spec()
    &&& forall|x: T, y: T| #[trigger] x.sub_req(y)
}

/// Any two numbers can be multiplied.
pub open spec fn can_multiply<T: Mul<Output = T>>() -> bool {
    &&& T::obeys_mul_spec()
    &&& forall|x: T, y: T| #[trigger] x.mul_req(y)
}

/// Any two numbers can be divided.
pub open spec fn can_divide<T: Div<Output = T>>() -> bool {
    &&& T::obeys_div_spec()
    &&& forall|x: T, y: T| #[trigger] x.div_req(y)
}

/// It can be told of any segment for how long it coincides with a line.
pub proof fn law_any_line_can_be_named<T: PartialOrd + Sub<Output = T>>(
    segment: DiarizationSegment<T>,
    start: T,
    end: T,
)
    requires
        can_subtract::<T>(),
    ensures
        alignment::overlap_fits(segment, start, end),
{
}

/// Voice prints can be grouped whenever the similarity of any two can be told.
pub proof fn law_any_prints_can_be_grouped<E, T, D, C>(
    embeddings: Seq<SpeakerEmbedding<E>>,
    units: Units<T>,
    dot: D,
    count_of: C,
) where
    T: Add<Output = T> + Sub<Output = T> + Div<Output = T>,
    D: Fn(&E, &E) -> T,
    C: Fn(usize) -> T,

    requires
        can_add::<T>(),
        can_subtract::<T>(),
        can_divide::<T>(),
        functions::steady(count_of),
        forall|a: &E, b: &E| #[trigger] dot.requires((a, b)),
    ensures
        clustering::computable(embeddings, units, dot, count_of),
{
}

impl<A, K, Q, F, G> EmbeddingExtractor<A, K, Q, F, G> where
    A: Copy + PartialOrd + Add<Output = A> + Sub<Output = A> + Mul<Output = A> + Div<Output = A>,
    K: Fn(usize) -> A,
    Q: Fn(A) -> A,
    F: Fn(&[A]) -> Spectrum<A>,
    G: Fn(&Tensor<A>) -> RawPrint<A>,
 {
    /// The extractor can be used on anything: its functions can be called, and the filter
    /// hands out at least eighty bands for each frame.
    pub open spec fn is_usable(self) -> bool {
        &&& scalar::ordered::<A>()
        &&& can_add::<A>()
        &&& can_subtract::<A>()
        &&& can_multiply::<A>()
        &&& can_divide::<A>()
        &&& functions::steady(self.count_of)
        &&& functions::steady(self.sqrt)
        &&& forall|heard: &[A]| #[trigger] self.filter.requires((heard,))
        &&& forall|asked: &Tensor<A>| #[trigger] self.model.requires((asked,))
        &&& forall|heard: &[A], frames: Vec<Option<Vec<A>>>| #[trigger]
            self.filter.ensures((heard,), Ok(frames)) ==> embedding::flat(
                frames@,
                frames@.len() as int,
            ).len() >= 80 * frames@.len()
    }

    /// A voice print can be made of any stretch of speech.
    pub proof fn law_any_speech_can_be_printed(self, samples: Seq<A>)
        requires
            self.is_usable(),
        ensures
            self.fits(samples),
    {
    }
}

impl<A, T, N, W, R, C, X, M> SegmentationEngine<A, T, N, W, R, C, X, M> where
    A: Copy + PartialOrd + Add<Output = A> + Sub<Output = A> + Div<Output = A>,
    T: Copy + PartialOrd + Add<Output = T> + Mul<Output = T> + Div<Output = T>,
    N: Fn(usize) -> T,
    W: Fn(T) -> usize,
    R: Fn(T) -> usize,
    C: Fn(T) -> usize,
    X: Fn(A) -> A,
    M: Fn(&Tensor<A>) -> Answer<A>,
 {
    /// The engine can be used: its functions can be called, times can be compared, and no
    /// count is as large as counts can be.
    pub open spec fn is_usable(self) -> bool {
        &&& scalar::ordered::<A>()
        &&& scalar::ordered::<T>()
        &&& scalar::linear(Set::<T>::full())
        &&& can_add::<A>()
        &&& can_subtract::<A>()
        &&& can_divide::<A>()
        &&& can_add::<T>()
        &&& can_multiply::<T>()
        &&& can_divide::<T>()
        &&& self.clock.steady()
        &&& functions::steady(self.exp)
        &&& forall|asked: &Tensor<A>| #[trigger] self.model.requires((asked,))
        &&& forall|x: T| #[trigger] functions::value(self.clock.round, x) < usize::MAX
    }

    /// The model scores every frame in all classes, and the frames that a recording should
    /// need can be counted.
    pub open spec fn model_scores_all(self) -> bool {
        forall|asked: &Tensor<A>, scores: Scores<A>|
            #![trigger self.model.ensures((asked,), Ok(scores))]
            self.model.ensures((asked,), Ok(scores)) && scores.classes >= 7 ==> {
                &&& scores.data@.len() == scores.frames * scores.classes
                &&& forall|x: T|
                    #[trigger] functions::value(self.clock.ceil, x) + scores.frames + 10
                        <= usize::MAX
            }
    }

    /// Speech can be looked for in any recording in which windows start at different
    /// samples.
    pub proof fn law_any_recording_can_be_segmented(
        self,
        samples: Seq<A>,
        config: DiarizationConfig<T, A>,
    )
        requires
            self.is_usable(),
            self.model_scores_all(),
            samples.len() > 0 ==> self.hop(config) > 0,
        ensures
            self.fits(samples, config),
    {
        let total = samples.len() as int;
        assert forall|answers: Seq<Answer<A>>| #[trigger]
            self.may_answer(samples, config, answers) implies self.workable(
            config,
            total,
            answers,
        ) by {
            assert forall|k: int| 0 <= k < answers.len() && segmentation::accepted(
                #[trigger] answers[k],
            ) implies {
                let scores = answers[k]->Ok_0;
                scores.data@.len() == scores.frames * scores.classes
            } && self.answer_fits(config, total, answers, k) by {
                assert(self.answers_window(samples, config, k, answers[k]));
                let asked = choose|asked: Tensor<A>| #[trigger]
                    self.model.ensures((&asked,), answers[k]);
                let scores = answers[k]->Ok_0;
                assert(self.model.ensures((&asked,), Ok(scores)));
                let frames = answers[0]->Ok_0.frames;
                let frame_secs = self.frame_secs(config, frames);
                if k == 0 {
                    let x = self.duration(config, total).div_spec(frame_secs);
                    assert(functions::value(self.clock.ceil, x) + scores.frames + 10
                        <= usize::MAX);
                }
                assert forall|f: int| 0 <= f < scores.frames implies #[trigger] activity::row_fits(
                    self.cells_after(config, total, answers, k),
                    activity::rows_of(self.exponentials(scores)),
                    self.positions(config, frame_secs, k, scores.frames),
                    self.rules.zero,
                    self.rules.one,
                    f,
                ) by {}
            }
            let heard = self.heard_segments(config, total, answers);
            assert forall|t: T| #[trigger] order::starts(heard).contains(t) implies Set::<
                T,
            >::full().contains(t) by {}
        }
    }
}

impl<A, T, N, W, R, C, X, M, K, Q, F, G, D, P> Diarizer<
    A,
    T,
    N,
    W,
    R,
    C,
    X,
    M,
    K,
    Q,
    F,
    G,
    D,
    P,
> where
    A: Copy + PartialOrd + Add<Output = A> + Sub<Output = A> + Mul<Output = A> + Div<Output = A>,
    T: Copy + PartialOrd + Add<Output = T> + Mul<Output = T> + Div<Output = T>,
    N: Fn(usize) -> T,
    W: Fn(T) -> usize,
    R: Fn(T) -> usize,
    C: Fn(T) -> usize,
    X: Fn(A) -> A,
    M: Fn(&Tensor<A>) -> Answer<A>,
    K: Fn(usize) -> A,
    Q: Fn(A) -> A,
    F: Fn(&[A]) -> Spectrum<A>,
    G: Fn(&Tensor<A>) -> RawPrint<A>,
    D: Fn(&Vec<A>, &Vec<A>) -> A,
    P: Fn(&DiarizationSegment<T>, &DiarizationError),
 {
    /// Any recording can be diarized in which windows start at different samples.
    pub proof fn law_any_recording_can_be_diarized(
        self,
        samples: Seq<A>,
        config: DiarizationConfig<T, A>,
    )
        requires
            self.segmentation_engine.is_usable(),
            self.segmentation_engine.model_scores_all(),
            self.embedding_extractor.is_usable(),
            forall|a: &Vec<A>, b: &Vec<A>| #[trigger] self.dot.requires((a, b)),
            forall|segment: &DiarizationSegment<T>, error: &DiarizationError| #[trigger]
                self.report.requires((segment, error)),
            samples.len() > 0 ==> self.segmentation_engine.hop(config) > 0,
        ensures
            self.fits(samples, config),
    {
        self.segmentation_engine.law_any_recording_can_be_segmented(samples, config);
        assert forall|found: Vec<DiarizationSegment<T>>| #[trigger]
            self.segmentation_engine.segments(samples, config, Ok(found)) implies self.found_fits(
            samples,
            config,
            found@,
        ) by {
            assert forall|prints: Seq<Option<SpeakerEmbedding<Vec<A>>>>|
                prints.len() == found@.len() && #[trigger] self.may_print_all(
                    samples,
                    config,
                    found@,
                    prints,
                ) implies clustering::computable(
                diarizer::printed(prints, found@.len() as int),
                self.units(),
                self.dot,
                self.embedding_extractor.count_of,
            ) by {
                law_any_prints_can_be_grouped(
                    diarizer::printed(prints, found@.len() as int),
                    self.units(),
                    self.dot,
                    self.embedding_extractor.count_of,
                );
            }
        }
    }
}

} // verus!
