//! Finding where each voice is heard in a recording.

use crate::activity;
use crate::activity::{lower_by_peak, ActivityGrid, FrameActivity, Logits};
use crate::clock::Clock;
use crate::exchange;
use crate::exact;
use crate::functions;
use crate::functions::divided;
use crate::order;
use crate::scalar;
use crate::speech;
use crate::speech::find_segments;
use crate::tensor;
use crate::tensor::{keep_leading, Output, Tensor};
use crate::types::{DiarizationConfig, DiarizationError, DiarizationSegment, ShapeFault};
use crate::windows;
use crate::windows::{window_starts, window_tensor};
use core::ops::{Add, Div, Mul, Sub};
use vstd::prelude::*;
#[allow(unused_imports)]
use vstd::std_specs::ops::{AddSpec, DivSpec, MulSpec, SubSpec};

verus! {

/// What the segmentation model says of a window: a row of scores for each frame.
#[derive(Debug)]
pub struct Scores<A> {
    pub data: Vec<A>,
    pub frames: usize,
    pub classes: usize,
}

/// What asking the model about a window leads to.
pub type Answer<A> = Result<Scores<A>, DiarizationError>;

/// Numbers that the segmentation goes by.
#[derive(Debug)]
pub struct SegmentationRules<A, T> {
    pub zero: A,
    pub one: A,
    /// A number that no score is below.
    pub lowest: A,
    /// How likely a voice has to be heard to count.
    pub threshold: A,
    /// Silence of up to this many seconds does not interrupt a voice.
    pub max_gap_secs: T,
    /// A voice that is heard for fewer seconds does not count.
    pub min_duration_secs: T,
}

impl<A: Div<Output = A>, T: Div<Output = T>> SegmentationRules<A, T> {
    /// The standard rules: a voice counts where it is at least as likely as not,
    /// silence of up to a tenth of a second does not interrupt it, and less than
    /// three tenths of a second of it do not count. `number_of` and `time_of` turn a
    /// count into a number and a time; no score is below `lowest`.
    pub fn standard<K: Fn(usize) -> A, N: Fn(usize) -> T>(
        number_of: &K,
        time_of: &N,
        lowest: A,
    ) -> (rules: Self)
        requires
            A::obeys_div_spec(),
            T::obeys_div_spec(),
            functions::steady(*number_of),
            functions::steady(*time_of),
            functions::fraction_fits(*number_of, 1, 2),
            functions::fraction_fits(*time_of, 1, 10),
            functions::fraction_fits(*time_of, 3, 10),
        ensures
            rules.zero == functions::value(*number_of, 0usize),
            rules.one == functions::value(*number_of, 1usize),
            rules.lowest == lowest,
            rules.threshold == functions::fraction(*number_of, 1, 2),
            rules.max_gap_secs == functions::fraction(*time_of, 1, 10),
            rules.min_duration_secs == functions::fraction(*time_of, 3, 10),
    {
        SegmentationRules {
            zero: number_of(0),
            one: number_of(1),
            lowest,
            threshold: divided(number_of, 1, 2),
            max_gap_secs: divided(time_of, 1, 10),
            min_duration_secs: divided(time_of, 3, 10),
        }
    }
}

/// Finds where each voice is heard.
pub struct SegmentationEngine<A, T, N, W, R, C, X, M> {
    pub rules: SegmentationRules<A, T>,
    pub clock: Clock<N, W, R, C>,
    /// The exponential function.
    pub exp: X,
    /// The segmentation model.
    pub model: M,
}

/// The model scored the window, and scored enough classes.
pub open spec fn accepted<A>(answer: Answer<A>) -> bool {
    answer matches Ok(scores) && scores.classes >= activity::CLASSES
}

/// Why an answer is not accepted.
pub open spec fn refusal<A>(answer: Answer<A>) -> DiarizationError {
    match answer {
        Ok(_) => DiarizationError::Shape(ShapeFault::IncompatibleShape),
        Err(error) => error,
    }
}

/// What an output of the model comes to, if the model has it: an output that does
/// not have three lengths is refused, and of the others the first batch counts.
pub open spec fn reads_as<A>(output: Option<Output<A>>, answer: Answer<A>) -> bool {
    match output {
        None => answer matches Err(error) && error matches DiarizationError::OutputNotFound(name)
            && name@ == "y"@,
        Some(found) => if found.shape@.len() != 3 {
            answer matches Err(error) && error == DiarizationError::Shape(
                ShapeFault::IncompatibleShape,
            )
        } else {
            &&& answer matches Ok(scores)
            &&& scores.frames == found.shape@[1]
            &&& scores.classes == found.shape@[2]
            &&& scores.data@ == tensor::leading(found.data@, scores.frames * scores.classes)
        },
    }
}

/// Reads the scores out of the output of the model. If it has scores of enough
/// classes, it has those of one batch at least.
pub fn read_scores<A>(output: Option<Output<A>>) -> (answer: Answer<A>)
    requires
        output matches Some(found) ==> found.shape@.len() == 3 && found.shape@[2]
            >= activity::CLASSES ==> found.data@.len() >= found.shape@[1] * found.shape@[2],
    ensures
        reads_as(output, answer),
        accepted(answer) ==> answer->Ok_0.data@.len() == answer->Ok_0.frames
            * answer->Ok_0.classes,
{
    match output {
        None => Err(DiarizationError::OutputNotFound("y".to_owned())),
        Some(found) => {
            if found.shape.len() != 3 {
                return Err(DiarizationError::Shape(ShapeFault::IncompatibleShape));
            }
            let frames: usize = found.shape[1];
            let classes: usize = found.shape[2];
            Ok(Scores { data: keep_leading(found.data, frames, classes), frames, classes })
        },
    }
}

/// The scores of the seven classes in a frame.
pub open spec fn row<A>(scores: Scores<A>, frame: int) -> Seq<A> {
    Seq::new(activity::CLASSES as nat, |class: int| scores.data@[frame * scores.classes + class])
}

impl<A, T, N, W, R, C, X, M> SegmentationEngine<A, T, N, W, R, C, X, M> where
    A: Copy + PartialOrd + Add<Output = A> + Sub<Output = A> + Div<Output = A>,
    T: Copy + PartialOrd + Add<Output = T> + Mul<Output = T> + Div<Output = T>,
    N: Fn(usize) -> T,
    W: Fn(T) -> usize,
    R: Fn(T) -> usize,
    C: Fn(T) -> usize,
    X: Fn(A) -> A,
    M: Fn(&Tensor<A>) -> Answer<A>,
 {
    /// How many samples the recording has in a second.
    pub open spec fn rate(self, config: DiarizationConfig<T, A>) -> T {
        self.clock.number(config.sample_rate as int)
    }

    /// How many samples a window has.
    pub open spec fn window(self, config: DiarizationConfig<T, A>) -> usize {
        functions::value(
            self.clock.whole,
            config.segmentation_window_secs.mul_spec(self.rate(config)),
        )
    }

    /// How many samples apart windows start.
    pub open spec fn hop(self, config: DiarizationConfig<T, A>) -> usize {
        functions::value(
            self.clock.whole,
            config.segmentation_hop_secs.mul_spec(self.rate(config)),
        )
    }

    /// How many windows a recording of `total` samples has.
    pub open spec fn windows(self, config: DiarizationConfig<T, A>, total: int) -> int {
        if total > 0 {
            windows::window_count(total, self.hop(config) as int)
        } else {
            0
        }
    }

    /// How many seconds a recording of `total` samples lasts.
    pub open spec fn duration(self, config: DiarizationConfig<T, A>, total: int) -> T {
        self.clock.number(total).div_spec(self.rate(config))
    }

    /// How many seconds a frame lasts, of which a window has so many.
    pub open spec fn frame_secs(self, config: DiarizationConfig<T, A>, frames: usize) -> T {
        config.segmentation_window_secs.div_spec(self.clock.number(frames as int))
    }

    /// How many frames a recording should need.
    pub open spec fn estimate(
        self,
        config: DiarizationConfig<T, A>,
        total: int,
        frames: usize,
    ) -> usize {
        functions::value(
            self.clock.ceil,
            self.duration(config, total).div_spec(self.frame_secs(config, frames)),
        )
    }

    /// The frame in which window `k` starts, as a number.
    pub open spec fn first_frame(
        self,
        config: DiarizationConfig<T, A>,
        frame_secs: T,
        k: int,
    ) -> T {
        self.clock.number(k * self.hop(config)).div_spec(self.rate(config)).div_spec(frame_secs)
    }

    /// The frames of the recording that the frames of window `k` fall on.
    pub open spec fn positions(
        self,
        config: DiarizationConfig<T, A>,
        frame_secs: T,
        k: int,
        frames: usize,
    ) -> Seq<usize> {
        Seq::new(
            frames as nat,
            |f: int|
                functions::value(
                    self.clock.round,
                    self.first_frame(config, frame_secs, k).add_spec(self.clock.number(f)),
                ),
        )
    }

    /// The exponentials of the scores, each lessened by the largest in its frame.
    pub open spec fn exponentials(self, scores: Scores<A>) -> Seq<A> {
        Seq::new(
            (scores.frames * activity::CLASSES) as nat,
            |i: int|
                functions::value(
                    self.exp,
                    activity::lowered(
                        row(scores, i / activity::CLASSES as int),
                        self.rules.lowest,
                    )[i % activity::CLASSES as int],
                ),
        )
    }

    /// What the first `n` windows say of every frame. The first of them decides how
    /// long a frame lasts.
    pub open spec fn cells_after(
        self,
        config: DiarizationConfig<T, A>,
        total: int,
        answers: Seq<Answer<A>>,
        n: int,
    ) -> Seq<FrameActivity<A>>
        decreases n,
    {
        let frames = answers[0]->Ok_0.frames;
        if n <= 0 {
            Seq::new(
                (self.estimate(config, total, frames) + frames + 10) as nat,
                |i: int| FrameActivity::silent(self.rules.zero),
            )
        } else {
            let scores = answers[n - 1]->Ok_0;
            activity::after_rows(
                self.cells_after(config, total, answers, n - 1),
                activity::rows_of(self.exponentials(scores)),
                self.positions(config, self.frame_secs(config, frames), n - 1, scores.frames),
                self.rules.zero,
                self.rules.one,
                scores.frames as int,
            )
        }
    }

    /// What all windows say of every frame, on average.
    pub open spec fn averaged_cells(
        self,
        config: DiarizationConfig<T, A>,
        total: int,
        answers: Seq<Answer<A>>,
    ) -> Seq<FrameActivity<A>> {
        self.cells_after(config, total, answers, answers.len() as int).map_values(
            |cell: FrameActivity<A>| activity::averaged(cell, self.rules.zero),
        )
    }

    /// When each of `count` frames starts, and when the last ends.
    pub open spec fn times(self, frame_secs: T, count: nat) -> Seq<T> {
        Seq::new(count + 1, |i: int| self.clock.number(i).mul_spec(frame_secs))
    }

    /// How many frames a gap has at most that does not interrupt a voice.
    pub open spec fn max_gap(self, frame_secs: T) -> int {
        functions::value(self.clock.round, self.rules.max_gap_secs.div_spec(frame_secs)) as int
    }

    /// How many frames a voice has to be heard at least.
    pub open spec fn min_len(self, frame_secs: T) -> int {
        functions::value(self.clock.round, self.rules.min_duration_secs.div_spec(frame_secs)) as int
    }

    /// Where each voice is heard, one voice after the other.
    pub open spec fn heard_segments(
        self,
        config: DiarizationConfig<T, A>,
        total: int,
        answers: Seq<Answer<A>>,
    ) -> Seq<DiarizationSegment<T>> {
        let cells = self.averaged_cells(config, total, answers);
        let frame_secs = self.frame_secs(config, answers[0]->Ok_0.frames);
        speech::all_segments(
            cells,
            self.rules.threshold,
            self.max_gap(frame_secs),
            self.min_len(frame_secs),
            self.times(frame_secs, cells.len()),
            self.duration(config, total),
            activity::VOICES as int,
        )
    }

    /// This is an answer that the model may give to window `k`.
    pub open spec fn answers_window(
        self,
        samples: Seq<A>,
        config: DiarizationConfig<T, A>,
        k: int,
        answer: Answer<A>,
    ) -> bool {
        exists|asked: Tensor<A>|
            asked.batch == 1 && asked.rows == 1 && asked.cols == self.window(config)
                && asked.data@ == windows::windowed(
                samples,
                k * self.hop(config),
                self.window(config) as nat,
                self.rules.zero,
            ) && #[trigger] self.model.ensures((&asked,), answer)
    }

    /// These are answers that the model may give to the first windows, one after
    /// the other; after one that is not accepted it is not asked again.
    pub open spec fn may_answer(
        self,
        samples: Seq<A>,
        config: DiarizationConfig<T, A>,
        answers: Seq<Answer<A>>,
    ) -> bool {
        &&& answers.len() <= self.windows(config, samples.len() as int)
        &&& forall|k: int|
            0 <= k < answers.len() ==> self.answers_window(
                samples,
                config,
                k,
                #[trigger] answers[k],
            )
        &&& forall|k: int| 0 <= k < answers.len() - 1 ==> accepted(#[trigger] answers[k])
    }

    /// The arithmetic on the answer to window `k` stays within the number types,
    /// and the frames within what can be counted.
    pub open spec fn answer_fits(
        self,
        config: DiarizationConfig<T, A>,
        total: int,
        answers: Seq<Answer<A>>,
        k: int,
    ) -> bool {
        let scores = answers[k]->Ok_0;
        let frames = answers[0]->Ok_0.frames;
        let frame_secs = self.frame_secs(config, frames);
        let start = self.clock.number(k * self.hop(config));
        &&& k == 0 ==> {
            &&& config.segmentation_window_secs.div_req(self.clock.number(frames as int))
            &&& self.duration(config, total).div_req(frame_secs)
            &&& self.estimate(config, total, frames) + frames + 10 <= usize::MAX
        }
        &&& start.div_req(self.rate(config))
        &&& start.div_spec(self.rate(config)).div_req(frame_secs)
        &&& forall|f: int|
            0 <= f < scores.frames ==> {
                &&& self.first_frame(config, frame_secs, k).add_req(#[trigger] self.clock.number(f))
                &&& self.positions(config, frame_secs, k, scores.frames)[f] < usize::MAX
            }
        &&& forall|f: int, class: int|
            0 <= f < scores.frames && 0 <= class < activity::CLASSES ==> (#[trigger] row(
                scores,
                f,
            )[class]).sub_req(
                activity::peak(row(scores, f), self.rules.lowest, activity::CLASSES as int),
            )
        &&& forall|f: int|
            0 <= f < scores.frames ==> #[trigger] activity::row_fits(
                self.cells_after(config, total, answers, k),
                activity::rows_of(self.exponentials(scores)),
                self.positions(config, frame_secs, k, scores.frames),
                self.rules.zero,
                self.rules.one,
                f,
            )
    }

    /// The arithmetic after the last window stays within the number types, and the
    /// segments can be put in order.
    pub open spec fn conclusion_fits(
        self,
        config: DiarizationConfig<T, A>,
        total: int,
        answers: Seq<Answer<A>>,
    ) -> bool {
        let cells = self.cells_after(config, total, answers, answers.len() as int);
        let frame_secs = self.frame_secs(config, answers[0]->Ok_0.frames);
        &&& forall|i: int|
            0 <= i < cells.len() && scalar::gt((#[trigger] cells[i]).weight, self.rules.zero) ==> {
                &&& cells[i].voices.0.div_req(cells[i].weight)
                &&& cells[i].voices.1.div_req(cells[i].weight)
                &&& cells[i].voices.2.div_req(cells[i].weight)
            }
        &&& self.rules.max_gap_secs.div_req(frame_secs)
        &&& self.rules.min_duration_secs.div_req(frame_secs)
        &&& forall|i: int|
            0 <= i <= cells.len() ==> (#[trigger] self.clock.number(i)).mul_req(frame_secs)
        &&& scalar::linear(order::starts(self.heard_segments(config, total, answers)))
    }

    /// With these answers the segmentation can go on, and conclude if they are all.
    pub open spec fn workable(
        self,
        config: DiarizationConfig<T, A>,
        total: int,
        answers: Seq<Answer<A>>,
    ) -> bool {
        &&& forall|k: int|
            0 <= k < answers.len() && accepted(#[trigger] answers[k]) ==> {
                let scores = answers[k]->Ok_0;
                scores.data@.len() == scores.frames * scores.classes
            }
        &&& forall|k: int|
            0 <= k < answers.len() && accepted(#[trigger] answers[k]) ==> self.answer_fits(
                config,
                total,
                answers,
                k,
            )
        &&& answers.len() == self.windows(config, total) && answers.len() > 0 && accepted(
            answers.last(),
        ) ==> self.conclusion_fits(config, total, answers)
    }

    /// What the engine has been given can be used on a recording of `total` samples.
    pub open spec fn ready(self, config: DiarizationConfig<T, A>, total: int) -> bool {
        &&& scalar::ordered::<A>()
        &&& scalar::ordered::<T>()
        &&& A::obeys_add_spec()
        &&& A::obeys_sub_spec()
        &&& A::obeys_div_spec()
        &&& T::obeys_add_spec()
        &&& T::obeys_mul_spec()
        &&& T::obeys_div_spec()
        &&& self.clock.steady()
        &&& functions::steady(self.exp)
        &&& forall|asked: &Tensor<A>| #[trigger] self.model.requires((asked,))
        &&& config.segmentation_window_secs.mul_req(self.rate(config))
        &&& config.segmentation_hop_secs.mul_req(self.rate(config))
        &&& self.clock.number(total).div_req(self.rate(config))
    }

    /// What the segmentation of a recording of `total` samples comes to, once the
    /// model has given these answers.
    pub open spec fn concludes(
        self,
        config: DiarizationConfig<T, A>,
        total: int,
        answers: Seq<Answer<A>>,
        made: Result<Vec<DiarizationSegment<T>>, DiarizationError>,
    ) -> bool {
        let length = self.window(config);
        if total == 0 {
            made matches Ok(segments) && segments@.len() == 0
        } else if tensor::misfit(1, 1, length, length as nat) is Some {
            made matches Err(error) && error == DiarizationError::Shape(
                tensor::misfit(1, 1, length, length as nat)->0,
            )
        } else if answers.len() > 0 && !accepted(answers.last()) {
            made matches Err(error) && error == refusal(answers.last())
        } else {
            &&& answers.len() == self.windows(config, total)
            &&& made matches Ok(segments) && segments@ == order::sorted_by_start(
                self.heard_segments(config, total, answers),
            )
        }
    }

    /// This is what segmenting the recording may come to.
    pub open spec fn segments(
        self,
        samples: Seq<A>,
        config: DiarizationConfig<T, A>,
        made: Result<Vec<DiarizationSegment<T>>, DiarizationError>,
    ) -> bool {
        exists|answers: Seq<Answer<A>>| #[trigger]
            self.may_answer(samples, config, answers) && self.concludes(
                config,
                samples.len() as int,
                answers,
                made,
            )
    }

    /// The engine can segment the recording, whatever the model answers: windows
    /// start at different samples, and with every answer it can go on.
    pub open spec fn fits(self, samples: Seq<A>, config: DiarizationConfig<T, A>) -> bool {
        &&& self.ready(config, samples.len() as int)
        &&& samples.len() > 0 ==> self.hop(config) > 0
        &&& forall|answers: Seq<Answer<A>>| #[trigger]
            self.may_answer(samples, config, answers) ==> self.workable(
                config,
                samples.len() as int,
                answers,
            )
    }

    /// An engine that goes by these rules and has these functions and this model.
    pub fn new(
        rules: SegmentationRules<A, T>,
        clock: Clock<N, W, R, C>,
        exp: X,
        model: M,
    ) -> (engine: Self)
        ensures
            engine == (SegmentationEngine { rules, clock, exp, model }),
    {
        SegmentationEngine { rules, clock, exp, model }
    }

    /// The exponential of every score, lessened by the largest in its frame.
    fn exponentials_of(&self, logits: &Logits<A>) -> (out: Vec<A>)
        requires
            logits.valid(),
            scalar::ordered::<A>(),
            A::obeys_sub_spec(),
            functions::steady(self.exp),
            forall|f: int, class: int|
                0 <= f < logits.frames && 0 <= class < activity::CLASSES ==> (
                #[trigger] logits.row(f)[class]).sub_req(
                    activity::peak(logits.row(f), self.rules.lowest, activity::CLASSES as int),
                ),
        ensures
            out@ == Seq::new(
                (logits.frames * activity::CLASSES) as nat,
                |i: int|
                    functions::value(
                        self.exp,
                        activity::lowered(
                            logits.row(i / activity::CLASSES as int),
                            self.rules.lowest,
                        )[i % activity::CLASSES as int],
                    ),
            ),
    {
        let lowered: Vec<A> = lower_by_peak(logits, self.rules.lowest);
        let mut out: Vec<A> = Vec::new();
        let mut i: usize = 0;
        while i < lowered.len()
            invariant
                i <= lowered@.len(),
                functions::steady(self.exp),
                out@.len() == i,
                forall|k: int|
                    0 <= k < i ==> #[trigger] out@[k] == functions::value(self.exp, lowered@[k]),
            decreases lowered@.len() - i,
        {
            let x: A = lowered[i];
            out.push((self.exp)(x));
            i = i + 1;
        }
        proof {
            let all = Seq::new(
                (logits.frames * activity::CLASSES) as nat,
                |i: int|
                    functions::value(
                        self.exp,
                        activity::lowered(
                            logits.row(i / activity::CLASSES as int),
                            self.rules.lowest,
                        )[i % activity::CLASSES as int],
                    ),
            );
            assert forall|k: int| 0 <= k < out@.len() implies out@[k] == all[k] by {
                let f = k / 7;
                let class = k % 7;
                assert(lowered@[f * activity::CLASSES + class] == activity::lowered(
                    logits.row(f),
                    self.rules.lowest,
                )[class]);
            }
            assert(out@ =~= all);
        }
        out
    }

    /// The frames of the recording that the frames of window `k` fall on, where
    /// that window starts at sample `start`.
    fn positions_of(
        &self,
        config: &DiarizationConfig<T, A>,
        rate: T,
        frame_secs: T,
        Ghost(k): Ghost<int>,
        start: usize,
        frames: usize,
    ) -> (out: Vec<usize>)
        requires
            self.clock.steady(),
            T::obeys_add_spec(),
            T::obeys_div_spec(),
            rate == self.rate(*config),
            start == k * self.hop(*config),
            self.clock.number(start as int).div_req(rate),
            self.clock.number(start as int).div_spec(rate).div_req(frame_secs),
            forall|f: int|
                0 <= f < frames ==> self.first_frame(*config, frame_secs, k).add_req(
                    #[trigger] self.clock.number(f),
                ),
        ensures
            out@ == self.positions(*config, frame_secs, k, frames),
    {
        let start_time: T = (self.clock.count_of)(start) / rate;
        let first: T = start_time / frame_secs;
        let mut out: Vec<usize> = Vec::new();
        let mut f: usize = 0;
        while f < frames
            invariant
                f <= frames,
                self.clock.steady(),
                T::obeys_add_spec(),
                first == self.first_frame(*config, frame_secs, k),
                forall|f: int|
                    0 <= f < frames ==> self.first_frame(*config, frame_secs, k).add_req(
                        #[trigger] self.clock.number(f),
                    ),
                out@ == self.positions(*config, frame_secs, k, frames).take(f as int),
            decreases frames - f,
        {
            let offset: T = (self.clock.count_of)(f);
            proof {
                assert(offset == self.clock.number(f as int));
            }
            out.push((self.clock.round)(first + offset));
            f = f + 1;
            proof {
                assert(out@ =~= self.positions(*config, frame_secs, k, frames).take(f as int));
            }
        }
        proof {
            assert(out@ =~= self.positions(*config, frame_secs, k, frames));
        }
        out
    }

    /// When each of `count` frames starts, and when the last ends.
    fn times_of(&self, frame_secs: T, count: usize) -> (out: Vec<T>)
        requires
            self.clock.steady(),
            T::obeys_mul_spec(),
            forall|i: int|
                0 <= i <= count ==> (#[trigger] self.clock.number(i)).mul_req(frame_secs),
        ensures
            out@ == self.times(frame_secs, count as nat),
    {
        let mut out: Vec<T> = Vec::new();
        let mut i: usize = 0;
        while i < count
            invariant
                i <= count,
                self.clock.steady(),
                T::obeys_mul_spec(),
                forall|i: int|
                    0 <= i <= count ==> (#[trigger] self.clock.number(i)).mul_req(frame_secs),
                out@ == self.times(frame_secs, count as nat).take(i as int),
            decreases count - i,
        {
            let number: T = (self.clock.count_of)(i);
            proof {
                assert(number == self.clock.number(i as int));
            }
            out.push(number * frame_secs);
            i = i + 1;
            proof {
                assert(out@ =~= self.times(frame_secs, count as nat).take(i as int));
            }
        }
        let number: T = (self.clock.count_of)(count);
        proof {
            assert(number == self.clock.number(count as int));
        }
        out.push(number * frame_secs);
        proof {
            assert(out@ =~= self.times(frame_secs, count as nat));
        }
        out
    }

    /// Later answers do not change what earlier windows say.
    proof fn lemma_cells_of_prefix(
        self,
        config: DiarizationConfig<T, A>,
        total: int,
        answers: Seq<Answer<A>>,
        more: Answer<A>,
        n: int,
    )
        requires
            answers.len() > 0,
            n <= answers.len(),
        ensures
            self.cells_after(config, total, answers.push(more), n) == self.cells_after(
                config,
                total,
                answers,
                n,
            ),
        decreases n,
    {
        if n > 0 {
            self.lemma_cells_of_prefix(config, total, answers, more, n - 1);
        }
    }

    /// Finds where each voice is heard: asks the model about one window after the
    /// other, brings together what it says of every frame, and looks for frames in
    /// which a voice is likely. The segments carry the number of the voice.
    pub fn segment(&self, samples: &[A], config: &DiarizationConfig<T, A>) -> (made: Result<
        Vec<DiarizationSegment<T>>,
        DiarizationError,
    >)
        requires
            self.fits(samples@, *config),
        ensures
            self.segments(samples@, *config, made),
    {
        let ghost mut answers: Seq<Answer<A>> = Seq::empty();
        let total: usize = samples.len();
        if total == 0 {
            proof {
                assert(self.may_answer(samples@, *config, answers));
            }
            return Ok(Vec::new());
        }
        let rate: T = (self.clock.count_of)(config.sample_rate as usize);
        let length: usize = (self.clock.whole)(config.segmentation_window_secs * rate);
        let hop: usize = (self.clock.whole)(config.segmentation_hop_secs * rate);
        let duration: T = (self.clock.count_of)(total) / rate;
        let starts: Vec<usize> = window_starts(total, hop);
        let mut spacing: Option<T> = None;
        let mut grid: ActivityGrid<A> = ActivityGrid { cells: Vec::new() };
        let mut next: usize = 0;
        while next < starts.len()
            invariant
                next <= starts@.len(),
                total == samples@.len(),
                total > 0,
                self.fits(samples@, *config),
                rate == self.rate(*config),
                length == self.window(*config),
                hop == self.hop(*config),
                duration == self.duration(*config, total as int),
                starts@.len() == self.windows(*config, total as int),
                forall|k: int| 0 <= k < starts@.len() ==> #[trigger] starts@[k] == k * hop,
                forall|k: int| 0 <= k < starts@.len() ==> #[trigger] starts@[k] < total,
                answers.len() == next,
                self.may_answer(samples@, *config, answers),
                next > 0 ==> tensor::misfit(1, 1, length, length as nat) is None,
                forall|k: int| 0 <= k < answers.len() ==> accepted(#[trigger] answers[k]),
                next == 0 <==> spacing is None,
                spacing matches Some(frame_secs) ==> {
                    &&& frame_secs == self.frame_secs(*config, answers[0]->Ok_0.frames)
                    &&& grid.cells@ == self.cells_after(*config, total as int, answers, next as int)
                },
            decreases starts@.len() - next,
        {
            let start: usize = starts[next];
            let asked: Tensor<A> = match window_tensor(samples, start, length, self.rules.zero) {
                Ok(asked) => asked,
                Err(error) => {
                    return Err(error);
                },
            };
            let answer: Answer<A> = (self.model)(&asked);
            let ghost earlier = answers;
            proof {
                assert(self.model.ensures((&asked,), answer));
                assert(self.answers_window(samples@, *config, next as int, answer));
                answers = answers.push(answer);
                assert(self.may_answer(samples@, *config, answers));
                assert(self.workable(*config, total as int, answers));
                assert(answers[next as int] == answer);
            }
            let scores: Scores<A> = match answer {
                Ok(scores) => scores,
                Err(error) => {
                    return Err(error);
                },
            };
            let ghost told = scores;
            let frames: usize = scores.frames;
            let logits: Logits<A> = match Logits::new(scores.data, frames, scores.classes) {
                Ok(logits) => logits,
                Err(error) => {
                    return Err(error);
                },
            };
            proof {
                assert(accepted(answers[next as int]));
                assert(self.answer_fits(*config, total as int, answers, next as int));
                assert forall|f: int| logits.row(f) == #[trigger] row(told, f) by {
                    assert(logits.row(f) =~= row(told, f));
                }
            }
            let frame_secs: T = match spacing {
                Some(frame_secs) => frame_secs,
                None => {
                    let frame_secs: T = config.segmentation_window_secs / (self.clock.count_of)(
                        frames,
                    );
                    let estimate: usize = (self.clock.ceil)(duration / frame_secs);
                    grid = ActivityGrid::with_room(estimate, frames, self.rules.zero);
                    frame_secs
                },
            };
            spacing = Some(frame_secs);
            proof {
                if next > 0 {
                    self.lemma_cells_of_prefix(
                        *config,
                        total as int,
                        earlier,
                        answer,
                        next as int,
                    );
                    assert(answers[0] == earlier[0]);
                }
                assert(frame_secs == self.frame_secs(*config, answers[0]->Ok_0.frames));
                assert(grid.cells@ =~= self.cells_after(
                    *config,
                    total as int,
                    answers,
                    next as int,
                ));
            }
            let positions: Vec<usize> = self.positions_of(
                config,
                rate,
                frame_secs,
                Ghost(next as int),
                start,
                frames,
            );
            proof {
                assert forall|f: int, class: int|
                    0 <= f < logits.frames && 0 <= class < activity::CLASSES implies (
                #[trigger] logits.row(f)[class]).sub_req(
                    activity::peak(logits.row(f), self.rules.lowest, activity::CLASSES as int),
                ) by {
                    assert(logits.row(f) == row(told, f));
                    assert(row(told, f)[class] == logits.row(f)[class]);
                }
            }
            let exponentials: Vec<A> = self.exponentials_of(&logits);
            proof {
                assert(exponentials@ =~= self.exponentials(told)) by {
                    assert forall|i: int| 0 <= i < exponentials@.len() implies exponentials@[i]
                        == self.exponentials(told)[i] by {
                        assert(logits.row(i / 7) == row(told, i / 7));
                    }
                }
                assert forall|f: int| 0 <= f < positions@.len() implies #[trigger] positions@[f]
                    < usize::MAX by {
                    assert(self.first_frame(*config, frame_secs, next as int).add_req(
                        self.clock.number(f),
                    ));
                }
            }
            grid.add_window(&exponentials, &positions, self.rules.zero, self.rules.one);
            next = next + 1;
        }
        proof {
            assert(starts@.len() > 0) by {
                vstd::arithmetic::div_mod::lemma_div_is_ordered(
                    hop as int,
                    total + hop - 1,
                    hop as int,
                );
                vstd::arithmetic::div_mod::lemma_div_by_self(hop as int);
            }
            assert(self.workable(*config, total as int, answers));
            assert(accepted(answers[answers.len() - 1]));
            assert(self.conclusion_fits(*config, total as int, answers));
        }
        match spacing {
            None => Ok(Vec::new()),
            Some(frame_secs) => {
                grid.average(self.rules.zero);
                let max_gap: usize = (self.clock.round)(self.rules.max_gap_secs / frame_secs);
                let min_len: usize = (self.clock.round)(self.rules.min_duration_secs / frame_secs);
                let times: Vec<T> = self.times_of(frame_secs, grid.cells.len());
                proof {
                    assert(grid.cells@ == self.averaged_cells(*config, total as int, answers));
                }
                Ok(
                    find_segments(
                        &grid,
                        self.rules.threshold,
                        max_gap,
                        min_len,
                        &times,
                        duration,
                    ),
                )
            },
        }
    }

    /// The segments found start at times that can be compared with each other, and
    /// come in order of their starts.
    pub proof fn lemma_segments_line_up(
        self,
        samples: Seq<A>,
        config: DiarizationConfig<T, A>,
        found: Vec<DiarizationSegment<T>>,
    )
        requires
            self.fits(samples, config),
            self.segments(samples, config, Ok(found)),
        ensures
            scalar::linear(order::starts(found@)),
            order::in_order(found@),
    {
        let answers = choose|answers: Seq<Answer<A>>| #[trigger]
            self.may_answer(samples, config, answers) && self.concludes(
                config,
                samples.len() as int,
                answers,
                Ok(found),
            );
        if samples.len() == 0 {
            assert(order::starts(found@) =~= Set::empty());
        } else {
            let total = samples.len() as int;
            self.lemma_heard_line_up(samples, config, answers, found);
            let heard = self.heard_segments(config, total, answers);
            order::law_sorting_puts_in_order(heard);
            let ordering = choose|ordering: Seq<int>| order::ordered_by(heard, found@, ordering);
            assert forall|i: int| 0 <= i < found@.len() implies order::starts(heard).contains(
                (#[trigger] found@[i]).start,
            ) by {
                let keys = heard.map_values(|s: DiarizationSegment<T>| s.start);
                assert(keys[ordering[i]] == found@[i].start);
            }
            order::lemma_starts_among(found@, order::starts(heard));
        }
    }

    /// One segment goes before another: it starts earlier, or at the same time and its
    /// voice has no higher a number.
    pub open spec fn comes_first(
        self,
        one: DiarizationSegment<T>,
        other: DiarizationSegment<T>,
    ) -> bool {
        ||| scalar::lt(one.start, other.start)
        ||| scalar::le(one.start, other.start) && one.speaker_id <= other.speaker_id
    }

    /// A segment is one of a voice, lasts, does not end after the recording, and comes
    /// of a run of frames that is long enough.
    pub open spec fn is_sound(
        self,
        config: DiarizationConfig<T, A>,
        total: int,
        answers: Seq<Answer<A>>,
        segment: DiarizationSegment<T>,
    ) -> bool {
        let cells = self.averaged_cells(config, total, answers);
        let frame_secs = self.frame_secs(config, answers[0]->Ok_0.frames);
        let duration = self.duration(config, total);
        &&& segment.speaker_id < activity::VOICES
        &&& scalar::lt(segment.start, segment.end)
        &&& segment.end == duration || !scalar::gt(segment.end, duration)
        &&& speech::is_long(
            segment,
            speech::voice_frames(
                cells,
                self.rules.threshold,
                self.max_gap(frame_secs),
                segment.speaker_id as int,
            ),
            self.min_len(frame_secs),
            self.times(frame_secs, cells.len()),
            duration,
        )
    }

    /// The runs of frames that two segments of one voice come of lie further apart
    /// than the longest gap that does not interrupt a voice, the first run before the
    /// second.
    pub open spec fn is_well_before(
        self,
        config: DiarizationConfig<T, A>,
        total: int,
        answers: Seq<Answer<A>>,
        one: DiarizationSegment<T>,
        other: DiarizationSegment<T>,
    ) -> bool {
        let cells = self.averaged_cells(config, total, answers);
        let frame_secs = self.frame_secs(config, answers[0]->Ok_0.frames);
        speech::is_well_before(
            one,
            other,
            speech::voice_frames(
                cells,
                self.rules.threshold,
                self.max_gap(frame_secs),
                one.speaker_id as int,
            ),
            self.max_gap(frame_secs),
            self.min_len(frame_secs),
            self.times(frame_secs, cells.len()),
            self.duration(config, total),
        )
    }

    /// What `segment` returns comes in order of start and then voice. Every segment
    /// lasts, ends with the recording or before, and comes of a run of frames that is
    /// long enough; two segments of one voice lie further apart than the longest gap
    /// that does not interrupt a voice.
    pub proof fn law_segments_are_sound(
        self,
        samples: Seq<A>,
        config: DiarizationConfig<T, A>,
        answers: Seq<Answer<A>>,
        segments: Vec<DiarizationSegment<T>>,
    )
        requires
            self.fits(samples, config),
            self.may_answer(samples, config, answers),
            self.concludes(config, samples.len() as int, answers, Ok(segments)),
        ensures
            forall|i: int|
                0 <= i < segments@.len() ==> self.is_sound(
                    config,
                    samples.len() as int,
                    answers,
                    #[trigger] segments@[i],
                ),
            forall|i: int, j: int|
                0 <= i < j < segments@.len() ==> self.comes_first(
                    #[trigger] segments@[i],
                    #[trigger] segments@[j],
                ),
            forall|i: int, j: int|
                0 <= i < j < segments@.len() && (#[trigger] segments@[i]).speaker_id == (
                #[trigger] segments@[j]).speaker_id ==> {
                    ||| self.is_well_before(
                        config,
                        samples.len() as int,
                        answers,
                        segments@[i],
                        segments@[j],
                    )
                    ||| self.is_well_before(
                        config,
                        samples.len() as int,
                        answers,
                        segments@[j],
                        segments@[i],
                    )
                },
    {
        let total = samples.len() as int;
        if total > 0 {
            let heard = self.heard_segments(config, total, answers);
            let cells = self.averaged_cells(config, total, answers);
            let frame_secs = self.frame_secs(config, answers[0]->Ok_0.frames);
            let times = self.times(frame_secs, cells.len());
            let duration = self.duration(config, total);
            self.lemma_heard_line_up(samples, config, answers, segments);
            order::law_sorting_puts_in_order(heard);
            let ordering = choose|ordering: Seq<int>|
                order::ordered_by(heard, segments@, ordering);
            assert forall|i: int| 0 <= i < segments@.len() implies self.is_sound(
                config,
                total,
                answers,
                #[trigger] segments@[i],
            ) by {
                let k = ordering[i];
                assert(segments@[i] == heard[k]);
                speech::law_found_segments_last(
                    cells,
                    self.rules.threshold,
                    self.max_gap(frame_secs),
                    self.min_len(frame_secs),
                    times,
                    duration,
                    activity::VOICES as int,
                    k,
                );
                speech::law_found_segments_are_long_and_apart(
                    cells,
                    self.rules.threshold,
                    self.max_gap(frame_secs),
                    self.min_len(frame_secs),
                    times,
                    duration,
                    activity::VOICES as int,
                    k,
                    k,
                );
            }
            assert forall|i: int, j: int| 0 <= i < j < segments@.len() implies self.comes_first(
                #[trigger] segments@[i],
                #[trigger] segments@[j],
            ) by {
                assert(order::goes_before(heard, ordering[i], ordering[j]));
                if ordering[i] < ordering[j] {
                    speech::law_found_segments_are_long_and_apart(
                        cells,
                        self.rules.threshold,
                        self.max_gap(frame_secs),
                        self.min_len(frame_secs),
                        times,
                        duration,
                        activity::VOICES as int,
                        ordering[i],
                        ordering[j],
                    );
                }
            }
            assert forall|i: int, j: int|
                0 <= i < j < segments@.len() && (#[trigger] segments@[i]).speaker_id == (
                #[trigger] segments@[j]).speaker_id implies {
                ||| self.is_well_before(config, total, answers, segments@[i], segments@[j])
                ||| self.is_well_before(config, total, answers, segments@[j], segments@[i])
            } by {
                assert(order::goes_before(heard, ordering[i], ordering[j]));
                let (k, l) = if ordering[i] <= ordering[j] {
                    (ordering[i], ordering[j])
                } else {
                    (ordering[j], ordering[i])
                };
                if k == l {
                    order::lemma_order_has_no_repeats(heard, segments@, ordering, i, j);
                }
                speech::law_found_segments_are_long_and_apart(
                    cells,
                    self.rules.threshold,
                    self.max_gap(frame_secs),
                    self.min_len(frame_secs),
                    times,
                    duration,
                    activity::VOICES as int,
                    k,
                    l,
                );
            }
        }
    }

    pub proof fn lemma_heard_line_up(
        self,
        samples: Seq<A>,
        config: DiarizationConfig<T, A>,
        answers: Seq<Answer<A>>,
        segments: Vec<DiarizationSegment<T>>,
    )
        requires
            self.fits(samples, config),
            self.may_answer(samples, config, answers),
            self.concludes(config, samples.len() as int, answers, Ok(segments)),
            samples.len() > 0,
        ensures
            answers.len() > 0,
            forall|k: int| 0 <= k < answers.len() ==> accepted(#[trigger] answers[k]),
            scalar::linear(
                order::starts(self.heard_segments(config, samples.len() as int, answers)),
            ),
    {
        let total = samples.len() as int;
        let hop = self.hop(config) as int;
        vstd::arithmetic::div_mod::lemma_div_is_ordered(hop, total + hop - 1, hop);
        vstd::arithmetic::div_mod::lemma_div_by_self(hop);
        assert(self.workable(config, total, answers));
        assert forall|k: int| 0 <= k < answers.len() implies accepted(#[trigger] answers[k]) by {
            if k == answers.len() - 1 {
                assert(answers[k] == answers.last());
            }
        }
    }

    /// Two answers to one window are the same but for voices `a` and `b`, whose classes
    /// are exchanged in every frame, and neither the largest score of a frame nor the
    /// sums over its classes depend on the order of the classes.
    pub open spec fn answers_exchange(
        self,
        answer: Answer<A>,
        other: Answer<A>,
        a: int,
        b: int,
    ) -> bool {
        let scores = answer->Ok_0;
        let others = other->Ok_0;
        &&& accepted(answer)
        &&& accepted(other)
        &&& scores.frames == others.frames
        &&& forall|f: int|
            0 <= f < scores.frames ==> {
                &&& #[trigger] row(others, f) == exchange::exchanged_row(row(scores, f), a, b)
                &&& activity::peak(row(others, f), self.rules.lowest, activity::CLASSES as int)
                    == activity::peak(row(scores, f), self.rules.lowest, activity::CLASSES as int)
                &&& exchange::adds_alike(
                    activity::rows_of(self.exponentials(scores))[f],
                    self.rules.zero,
                    a,
                    b,
                )
            }
    }

    proof fn lemma_exponentials_exchange(
        self,
        other: Self,
        answer: Answer<A>,
        swapped: Answer<A>,
        a: int,
        b: int,
        f: int,
    )
        requires
            self.rules == other.rules,
            self.exp == other.exp,
            exchange::are_voices(a, b),
            self.answers_exchange(answer, swapped, a, b),
            0 <= f < answer->Ok_0.frames,
        ensures
            activity::rows_of(other.exponentials(swapped->Ok_0))[f] == exchange::exchanged_row(
                activity::rows_of(self.exponentials(answer->Ok_0))[f],
                a,
                b,
            ),
    {
        let scores = answer->Ok_0;
        let others = swapped->Ok_0;
        let ours = activity::rows_of(self.exponentials(scores))[f];
        let theirs = activity::rows_of(other.exponentials(others))[f];
        assert(row(others, f) == exchange::exchanged_row(row(scores, f), a, b));
        assert forall|class: int| 0 <= class < activity::CLASSES implies theirs[class]
            == exchange::exchanged_row(ours, a, b)[class] by {
            exchange::law_classes_follow_their_voices(class, 0, a, b);
            let from = exchange::exchanged_class(class, a, b);
            assert((f * 7 + class) / 7 == f && (f * 7 + class) % 7 == class);
            assert((f * 7 + from) / 7 == f && (f * 7 + from) % 7 == from);
            assert(theirs[class] == other.exponentials(others)[f * 7 + class]);
            assert(ours[from] == self.exponentials(scores)[f * 7 + from]);
        }
        assert(theirs =~= exchange::exchanged_row(ours, a, b));
    }

    proof fn lemma_cells_exchange(
        self,
        other: Self,
        config: DiarizationConfig<T, A>,
        total: int,
        answers: Seq<Answer<A>>,
        swapped: Seq<Answer<A>>,
        a: int,
        b: int,
        n: int,
    )
        requires
            self.rules == other.rules,
            self.clock == other.clock,
            self.exp == other.exp,
            exchange::are_voices(a, b),
            0 < answers.len() == swapped.len(),
            forall|k: int|
                0 <= k < answers.len() ==> self.answers_exchange(
                    #[trigger] answers[k],
                    swapped[k],
                    a,
                    b,
                ),
            n <= answers.len(),
        ensures
            other.cells_after(config, total, swapped, n) == exchange::exchanged_cells(
                self.cells_after(config, total, answers, n),
                a,
                b,
            ),
        decreases n,
    {
        assert(self.answers_exchange(answers[0], swapped[0], a, b));
        if n <= 0 {
            assert(other.cells_after(config, total, swapped, n)
                =~= exchange::exchanged_cells(
                self.cells_after(config, total, answers, n),
                a,
                b,
            ));
        } else {
            self.lemma_cells_exchange(other, config, total, answers, swapped, a, b, n - 1);
            let scores = answers[n - 1]->Ok_0;
            let others = swapped[n - 1]->Ok_0;
            assert(self.answers_exchange(answers[n - 1], swapped[n - 1], a, b));
            let rows = activity::rows_of(self.exponentials(scores));
            let other_rows = activity::rows_of(other.exponentials(others));
            let frame_secs = self.frame_secs(config, answers[0]->Ok_0.frames);
            let positions = self.positions(config, frame_secs, n - 1, scores.frames);
            assert(other.positions(config, frame_secs, n - 1, others.frames) =~= positions);
            assert forall|f: int| 0 <= f < scores.frames implies #[trigger] other_rows[f]
                == exchange::exchanged_row(rows[f], a, b) && exchange::adds_alike(
                rows[f],
                self.rules.zero,
                a,
                b,
            ) by {
                self.lemma_exponentials_exchange(
                    other,
                    answers[n - 1],
                    swapped[n - 1],
                    a,
                    b,
                    f,
                );
                assert(row(others, f) == exchange::exchanged_row(row(scores, f), a, b));
            }
            exchange::law_rows_exchange_the_voices_of_frames(
                self.cells_after(config, total, answers, n - 1),
                rows,
                other_rows,
                positions,
                self.rules.zero,
                self.rules.one,
                a,
                b,
                scores.frames as int,
            );
        }
    }

    /// Exchanging two voices in every answer of the model exchanges their numbers in
    /// the result and changes nothing else, wherever the order in which a frame's
    /// classes are added makes no difference.
    pub proof fn law_exchanging_voices_renames_segments(
        self,
        other: Self,
        samples: Seq<A>,
        config: DiarizationConfig<T, A>,
        answers: Seq<Answer<A>>,
        swapped: Seq<Answer<A>>,
        a: int,
        b: int,
        segments: Vec<DiarizationSegment<T>>,
        others: Vec<DiarizationSegment<T>>,
    )
        requires
            self.rules == other.rules,
            self.clock == other.clock,
            self.exp == other.exp,
            exchange::are_voices(a, b),
            self.fits(samples, config),
            other.fits(samples, config),
            self.may_answer(samples, config, answers),
            other.may_answer(samples, config, swapped),
            answers.len() == swapped.len(),
            forall|k: int|
                0 <= k < answers.len() ==> self.answers_exchange(
                    #[trigger] answers[k],
                    swapped[k],
                    a,
                    b,
                ),
            self.concludes(config, samples.len() as int, answers, Ok(segments)),
            other.concludes(config, samples.len() as int, swapped, Ok(others)),
        ensures
            others@.len() == segments@.len(),
            forall|segment: DiarizationSegment<T>| #[trigger]
                others@.contains(segment) <==> segments@.contains(
                    exchange::renamed(segment, a, b),
                ),
    {
        let total = samples.len() as int;
        if total > 0 {
            self.lemma_heard_line_up(samples, config, answers, segments);
            other.lemma_heard_line_up(samples, config, swapped, others);
            let n = answers.len() as int;
            self.lemma_cells_exchange(other, config, total, answers, swapped, a, b, n);
            assert(self.answers_exchange(answers[0], swapped[0], a, b));
            let frame_secs = self.frame_secs(config, answers[0]->Ok_0.frames);
            let cells = self.cells_after(config, total, answers, n);
            let averages = self.averaged_cells(config, total, answers);
            exchange::law_averages_are_exchanged(cells, self.rules.zero, a, b);
            assert(other.averaged_cells(config, total, swapped) == exchange::exchanged_cells(
                averages,
                a,
                b,
            ));
            let times = self.times(frame_secs, averages.len());
            assert(other.times(frame_secs, averages.len()) =~= times);
            exchange::law_exchanged_frames_rename_segments(
                averages,
                self.rules.threshold,
                self.max_gap(frame_secs),
                self.min_len(frame_secs),
                times,
                self.duration(config, total),
                a,
                b,
            );
            let heard = self.heard_segments(config, total, answers);
            let heard_others = other.heard_segments(config, total, swapped);
            order::law_sorting_puts_in_order(heard);
            order::law_sorting_puts_in_order(heard_others);
            order::lemma_sorting_keeps_segments(heard, segments@);
            order::lemma_sorting_keeps_segments(heard_others, others@);
            assert forall|segment: DiarizationSegment<T>| #[trigger]
                others@.contains(segment) <==> segments@.contains(
                    exchange::renamed(segment, a, b),
                ) by {
                assert(others@.contains(segment) <==> heard_others.contains(segment));
                assert(heard_others.contains(segment) <==> heard.contains(
                    exchange::renamed(segment, a, b),
                ));
            }
        } else {
            assert(segments@.len() == 0 && others@.len() == 0);
        }
    }
}

/// In the standard rules a voice counts where it is at least as likely as not, silence of
/// up to a tenth of a second does not interrupt it, and less than three tenths of a second
/// do not count.
pub proof fn law_standard_rules<A, T, K, N>(
    of: spec_fn(A) -> real,
    time_of: spec_fn(T) -> real,
    numbers: &K,
    times: &N,
    lowest: A,
    rules: SegmentationRules<A, T>,
) where A: Div<Output = A>, T: Div<Output = T>, K: Fn(usize) -> A, N: Fn(usize) -> T
    requires
        exact::divides(of),
        exact::divides(time_of),
        exact::counts(of, *numbers),
        exact::counts(time_of, *times),
        call_ensures(
            SegmentationRules::<A, T>::standard::<K, N>,
            (numbers, times, lowest),
            rules,
        ),
    ensures
        of(rules.zero) == 0real,
        of(rules.one) == 1real,
        rules.lowest == lowest,
        2real * of(rules.threshold) == 1real,
        10real * time_of(rules.max_gap_secs) == 1real,
        10real * time_of(rules.min_duration_secs) == 3real,
{
    exact::lemma_fraction_is(of, *numbers, 1, 2, 1real, 2real);
    exact::lemma_fraction_is(time_of, *times, 1, 10, 1real, 10real);
    exact::lemma_fraction_is(time_of, *times, 3, 10, 3real, 10real);
}

/// Of an output of the segmentation model with three lengths, the scores are those of the
/// first batch: score `c` of frame `f` stands where the model puts it.
pub proof fn law_first_batch_is_read<A>(output: Output<A>, answer: Answer<A>)
    requires
        output.shape@.len() == 3,
        output.data@.len() >= output.shape@[1] * output.shape@[2],
        call_ensures(read_scores::<A>, (Some(output),), answer),
    ensures
        answer matches Ok(scores) && scores.frames == output.shape@[1] && scores.classes
            == output.shape@[2] && scores.data@.len() == scores.frames * scores.classes && forall|
            f: int,
            c: int,
        |
            0 <= f < scores.frames && 0 <= c < scores.classes ==> #[trigger] scores.data@[f
                * scores.classes + c] == output.data@[f * scores.classes + c],
{
    if let Ok(scores) = answer {
        let (n, w) = (scores.frames as int, scores.classes as int);
        assert forall|f: int, c: int| 0 <= f < n && 0 <= c < w implies #[trigger] scores.data@[f * w
            + c] == output.data@[f * w + c] by {
            assert(0 <= f * w + c < n * w) by (nonlinear_arith)
                requires
                    0 <= f < n,
                    0 <= c < w,
            ;
        }
    }
}

} // verus!
