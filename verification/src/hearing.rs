//! What the segmentation reports, in terms of the recording and of what the model says
//! of it.

use crate::activity;
use crate::activity::FrameActivity;
use crate::exact;
use crate::functions;
use crate::order;
use crate::scalar;
use crate::segmentation;
use crate::segmentation::{Answer, SegmentationEngine};
use crate::speech;
use crate::tensor::Tensor;
use crate::types::{DiarizationConfig, DiarizationError, DiarizationSegment, ShapeFault};
use core::ops::{Add, Div, Mul, Sub};
use vstd::prelude::*;
#[allow(unused_imports)]
use vstd::std_specs::ops::{AddSpec, DivSpec, MulSpec, SubSpec};

verus! {

/// The numbers of a row add up to this.
pub open spec fn row_sum<A>(of: spec_fn(A) -> real, row: Seq<A>) -> real {
    of(row[0]) + of(row[1]) + of(row[2]) + of(row[3]) + of(row[4]) + of(row[5]) + of(row[6])
}

/// The numbers of the classes of a voice add up to this. Class 0 is nobody, classes 1
/// to 3 are one voice each, 4 is the first and the second, 5 the first and the third,
/// 6 the second and the third.
pub open spec fn voice_sum<A>(of: spec_fn(A) -> real, row: Seq<A>, voice: int) -> real {
    if voice == 0 {
        of(row[1]) + of(row[4]) + of(row[5])
    } else if voice == 1 {
        of(row[2]) + of(row[4]) + of(row[6])
    } else {
        of(row[3]) + of(row[5]) + of(row[6])
    }
}

/// Probabilities are exact numbers, and `zero` and `one` are what they say.
pub open spec fn weighs_exactly<A: PartialOrd + Add<Output = A> + Div<Output = A>>(
    of: spec_fn(A) -> real,
    zero: A,
    one: A,
) -> bool {
    &&& exact::adds(of)
    &&& exact::divides(of)
    &&& exact::compares(of)
    &&& of(zero) == 0real
    &&& of(one) == 1real
}

/// How likely a voice is heard: what the classes with the voice in them have of what
/// all seven classes have, or what they have where all have no more than nothing.
pub proof fn law_likelihood_is_the_share_of_the_classes_of_a_voice<
    A: PartialOrd + Add<Output = A> + Div<Output = A>,
>(of: spec_fn(A) -> real, row: Seq<A>, zero: A, one: A, voice: int)
    requires
        weighs_exactly(of, zero, one),
        0 <= voice < 3,
    ensures
        row_sum(of, row) > 0real ==> of(activity::likelihood(row, zero, voice)) * row_sum(of, row)
            == voice_sum(of, row, voice),
        row_sum(of, row) <= 0real ==> of(activity::likelihood(row, zero, voice)) == voice_sum(
            of,
            row,
            voice,
        ),
{
    reveal_with_fuel(activity::total, 8);
    let whole = activity::total(row, zero, 7);
    let all = row_sum(of, row);
    assert(of(whole) == all);
    let (a, b, c) = activity::classes_of(voice);
    let (x, y, z) = (
        of(activity::share(row, zero, a)),
        of(activity::share(row, zero, b)),
        of(activity::share(row, zero, c)),
    );
    if all > 0real {
        assert(x * all == of(row[a]) && y * all == of(row[b]) && z * all == of(row[c]));
        assert((x + y + z) * all == of(row[a]) + of(row[b]) + of(row[c])) by (nonlinear_arith)
            requires
                x * all == of(row[a]),
                y * all == of(row[b]),
                z * all == of(row[c]),
        ;
    }
}

/// What each row says of a voice in a frame: nothing if it does not go there.
pub open spec fn row_says<A: PartialOrd + Add<Output = A> + Div<Output = A>>(
    of: spec_fn(A) -> real,
    rows: Seq<Seq<A>>,
    positions: Seq<usize>,
    zero: A,
    frame: int,
    voice: int,
) -> spec_fn(int) -> real {
    |k: int|
        if positions[k] == frame {
            of(activity::likelihood(rows[k], zero, voice))
        } else {
            0real
        }
}

/// One for each row that goes to a frame.
pub open spec fn row_counts(positions: Seq<usize>, frame: int) -> spec_fn(int) -> real {
    |k: int|
        if positions[k] == frame {
            1real
        } else {
            0real
        }
}

/// What the rows that go to a frame say of a voice, added up.
pub open spec fn said_of<A: PartialOrd + Add<Output = A> + Div<Output = A>>(
    of: spec_fn(A) -> real,
    rows: Seq<Seq<A>>,
    positions: Seq<usize>,
    zero: A,
    frame: int,
    voice: int,
    n: int,
) -> real {
    exact::sum(row_says(of, rows, positions, zero, frame, voice), n)
}

/// How many of the first `n` rows go to a frame.
pub open spec fn rows_at(positions: Seq<usize>, frame: int, n: int) -> real {
    exact::sum(row_counts(positions, frame), n)
}

/// The number that a frame has, or `zero` if there is no such frame.
pub open spec fn number_at<A>(
    cells: Seq<FrameActivity<A>>,
    zero: A,
    frame: int,
    voice: int,
) -> A {
    if frame < cells.len() {
        cells[frame].voice(voice)
    } else {
        zero
    }
}

/// How many times a frame was scored, or `zero` if there is no such frame.
pub open spec fn weight_at<A>(cells: Seq<FrameActivity<A>>, zero: A, frame: int) -> A {
    if frame < cells.len() {
        cells[frame].weight
    } else {
        zero
    }
}

/// A window adds to every frame what its rows that go there say of each voice, and
/// counts them; to other frames it adds nothing.
pub proof fn law_window_adds_what_it_says<A: PartialOrd + Add<Output = A> + Div<Output = A>>(
    of: spec_fn(A) -> real,
    cells: Seq<FrameActivity<A>>,
    rows: Seq<Seq<A>>,
    positions: Seq<usize>,
    zero: A,
    one: A,
    frame: int,
    voice: int,
    n: int,
)
    requires
        weighs_exactly(of, zero, one),
        0 <= frame,
        0 <= voice < 3,
        0 <= n <= positions.len(),
    ensures
        ({
            let after = activity::after_rows(cells, rows, positions, zero, one, n);
            &&& of(number_at(after, zero, frame, voice)) == of(
                number_at(cells, zero, frame, voice),
            ) + said_of(of, rows, positions, zero, frame, voice, n)
            &&& of(weight_at(after, zero, frame)) == of(weight_at(cells, zero, frame)) + rows_at(
                positions,
                frame,
                n,
            )
        }),
    decreases n,
{
    if n > 0 {
        law_window_adds_what_it_says(
            of,
            cells,
            rows,
            positions,
            zero,
            one,
            frame,
            voice,
            n - 1,
        );
        let sofar = activity::after_rows(cells, rows, positions, zero, one, n - 1);
        let at = positions[n - 1] as int;
        let room = activity::reaching(sofar, at, zero);
        assert(number_at(room, zero, frame, voice) == number_at(sofar, zero, frame, voice));
        assert(weight_at(room, zero, frame) == weight_at(sofar, zero, frame));
        if at == frame {
            assert(activity::after_rows(cells, rows, positions, zero, one, n)[frame]
                == activity::heard(room[at], rows[n - 1], zero, one));
        }
    }
}

impl<A, T, N, W, R, C, X, M> SegmentationEngine<A, T, N, W, R, C, X, M> where
    A: Copy + PartialOrd + Add<Output = A> + Sub<Output = A> + Div<Output = A>,
    T: Copy + PartialOrd + Add<Output = T> + Mul<Output = T> + Div<Output = T>,
    N: Fn(usize) -> T,
    W: Fn(T) -> usize,
    R: Fn(T) -> usize,
    C: Fn(T) -> usize,
    X: Fn(A) -> A,
    M: Fn(&Tensor<A>) -> Answer<A>,
 {
    /// Times are exact numbers, and the clock counts and rounds them as it should.
    pub open spec fn keeps_time(self, of: spec_fn(T) -> real) -> bool {
        &&& exact::adds(of)
        &&& exact::multiplies(of)
        &&& exact::divides(of)
        &&& exact::compares(of)
        &&& exact::counts(of, self.clock.count_of)
        &&& exact::rounds(of, self.clock.round)
        &&& exact::floors(of, self.clock.whole)
    }

    /// A recording of `total` samples lasts as long as its samples take, and a frame as
    /// long as its share of a window; frame `i` starts after `i` frames.
    pub proof fn law_times_are_seconds(
        self,
        config: DiarizationConfig<T, A>,
        of: spec_fn(T) -> real,
        total: usize,
        frames: usize,
        i: usize,
        count: nat,
    )
        requires
            self.keeps_time(of),
            config.sample_rate > 0,
            frames > 0,
            i <= count,
        ensures
            of(self.duration(config, total as int)) * (config.sample_rate as real) == total as real,
            of(self.frame_secs(config, frames)) * (frames as real) == of(
                config.segmentation_window_secs,
            ),
            self.times(self.frame_secs(config, frames), count).len() == count + 1,
            of(self.times(self.frame_secs(config, frames), count)[i as int]) == i as real * of(
                self.frame_secs(config, frames),
            ),
    {
    }

    /// Windows have as many whole samples as fit in their length, and start as many
    /// whole samples apart as fit in the time between them.
    pub proof fn law_windows_last_as_configured(
        self,
        config: DiarizationConfig<T, A>,
        of: spec_fn(T) -> real,
    )
        requires
            self.keeps_time(of),
            0real <= of(config.segmentation_window_secs) * (config.sample_rate as real)
                <= usize::MAX as real,
            0real <= of(config.segmentation_hop_secs) * (config.sample_rate as real)
                <= usize::MAX as real,
        ensures
            self.window(config) as real <= of(config.segmentation_window_secs) * (
            config.sample_rate as real) < self.window(config) as real + 1real,
            self.hop(config) as real <= of(config.segmentation_hop_secs) * (
            config.sample_rate as real) < self.hop(config) as real + 1real,
    {
    }

    /// Frame `f` of window `k`, which starts `k` hops into the recording, counts for the
    /// time at which it was heard: the frame of the recording that it falls on starts
    /// within half a frame of that time.
    pub proof fn law_frames_count_for_the_time_they_were_heard(
        self,
        config: DiarizationConfig<T, A>,
        of: spec_fn(T) -> real,
        first: usize,
        k: int,
        frames: usize,
        f: int,
    )
        requires
            self.keeps_time(of),
            config.sample_rate > 0,
            first > 0,
            of(config.segmentation_window_secs) > 0real,
            0 <= k,
            k * self.hop(config) <= usize::MAX,
            0 <= f < frames,
            (k * self.hop(config)) as real / (config.sample_rate as real) + f as real * (of(
                config.segmentation_window_secs,
            ) / (first as real)) < (usize::MAX as real) * (of(config.segmentation_window_secs) / (
            first as real)),
        ensures
            ({
                let frame = of(config.segmentation_window_secs) / (first as real);
                let heard = (k * self.hop(config)) as real / (config.sample_rate as real)
                    + f as real * frame;
                let at = self.positions(
                    config,
                    self.frame_secs(config, first),
                    k,
                    frames,
                )[f] as real;
                at * frame - frame / 2real <= heard <= at * frame + frame / 2real
            }),
    {
        let window = of(config.segmentation_window_secs);
        let rate = config.sample_rate as real;
        let dt = self.frame_secs(config, first);
        let frame = window / (first as real);
        let start = (k * self.hop(config)) as real;
        let n = first as real;
        assert(of(dt) * n == window);
        assert(frame * n == window && frame > 0real) by (nonlinear_arith)
            requires
                frame == window / n,
                n > 0real,
                window > 0real,
        ;
        assert(of(dt) == frame) by (nonlinear_arith)
            requires
                of(dt) * n == window,
                frame * n == window,
                n > 0real,
        ;
        let began = self.clock.number(k * self.hop(config)).div_spec(self.rate(config));
        assert(of(began) * rate == start);
        assert(of(began) == start / rate && start / rate >= 0real) by (nonlinear_arith)
            requires
                of(began) * rate == start,
                rate > 0real,
                start >= 0real,
        ;
        let place = self.first_frame(config, dt, k);
        assert(of(place) * frame == start / rate);
        let x = place.add_spec(self.clock.number(f));
        assert(of(self.clock.number(f)) == f as real);
        assert(of(x) == of(place) + f as real);
        let most = usize::MAX as real;
        let heard = start / rate + f as real * frame;
        assert(of(x) * frame == heard && 0real <= of(x) < most) by (nonlinear_arith)
            requires
                of(x) == of(place) + f as real,
                of(place) * frame == start / rate,
                heard == start / rate + f as real * frame,
                start / rate >= 0real,
                f >= 0,
                frame > 0real,
                heard < most * frame,
        ;
        let at = functions::value(self.clock.round, x) as real;
        assert(at * frame - frame / 2real <= heard <= at * frame + frame / 2real)
            by (nonlinear_arith)
            requires
                2real * at - 1real <= 2real * of(x) <= 2real * at + 1real,
                of(x) * frame == heard,
                frame > 0real,
        ;
    }

    /// Two frames that were heard at one moment fall on one frame of the recording,
    /// whatever windows they are in.
    pub proof fn law_one_moment_has_one_frame(
        self,
        config: DiarizationConfig<T, A>,
        of: spec_fn(T) -> real,
        frame_secs: T,
        k: int,
        l: int,
        frames: usize,
        others: usize,
        f: int,
        g: int,
    )
        requires
            self.keeps_time(of),
            forall|x: T, y: T| #[trigger] of(x) == #[trigger] of(y) ==> x == y,
            config.sample_rate > 0,
            of(frame_secs) > 0real,
            0 <= k,
            0 <= l,
            k * self.hop(config) <= usize::MAX,
            l * self.hop(config) <= usize::MAX,
            0 <= f < frames,
            0 <= g < others,
            (k * self.hop(config)) as real / (config.sample_rate as real) + f as real * of(
                frame_secs,
            ) == (l * self.hop(config)) as real / (config.sample_rate as real) + g as real * of(
                frame_secs,
            ),
        ensures
            self.positions(config, frame_secs, k, frames)[f] == self.positions(
                config,
                frame_secs,
                l,
                others,
            )[g],
    {
        let rate = config.sample_rate as real;
        let frame = of(frame_secs);
        let a = (k * self.hop(config)) as real;
        let b = (l * self.hop(config)) as real;
        let p = of(self.clock.number(k * self.hop(config)).div_spec(self.rate(config)));
        let q = of(self.clock.number(l * self.hop(config)).div_spec(self.rate(config)));
        let x = of(self.first_frame(config, frame_secs, k));
        let y = of(self.first_frame(config, frame_secs, l));
        assert(of(self.clock.number(f)) == f as real);
        assert(of(self.clock.number(g)) == g as real);
        assert(p * rate == a && q * rate == b && x * frame == p && y * frame == q);
        assert(x + f as real == y + g as real) by (nonlinear_arith)
            requires
                p * rate == a,
                q * rate == b,
                x * frame == p,
                y * frame == q,
                rate > 0real,
                frame > 0real,
                a / rate + f as real * frame == b / rate + g as real * frame,
        ;
        assert(self.first_frame(config, frame_secs, k).add_spec(self.clock.number(f))
            == self.first_frame(config, frame_secs, l).add_spec(self.clock.number(g)));
    }

    /// The rows of exponentials of window `k`.
    pub open spec fn rows_said(self, answers: Seq<Answer<A>>, k: int) -> Seq<Seq<A>> {
        activity::rows_of(self.exponentials(answers[k]->Ok_0))
    }

    /// The frames of the recording that the frames of window `k` fall on.
    pub open spec fn places(
        self,
        config: DiarizationConfig<T, A>,
        answers: Seq<Answer<A>>,
        k: int,
    ) -> Seq<usize> {
        self.positions(
            config,
            self.frame_secs(config, answers[0]->Ok_0.frames),
            k,
            answers[k]->Ok_0.frames,
        )
    }

    /// What each window says of a voice in a frame of the recording.
    pub open spec fn window_says(
        self,
        of: spec_fn(A) -> real,
        config: DiarizationConfig<T, A>,
        answers: Seq<Answer<A>>,
        frame: int,
        voice: int,
    ) -> spec_fn(int) -> real {
        |k: int|
            said_of(
                of,
                self.rows_said(answers, k),
                self.places(config, answers, k),
                self.rules.zero,
                frame,
                voice,
                answers[k]->Ok_0.frames as int,
            )
    }

    /// How many frames of each window fall on a frame of the recording.
    pub open spec fn window_counts(
        self,
        config: DiarizationConfig<T, A>,
        answers: Seq<Answer<A>>,
        frame: int,
    ) -> spec_fn(int) -> real {
        |k: int|
            rows_at(self.places(config, answers, k), frame, answers[k]->Ok_0.frames as int)
    }

    /// What the first `n` windows say of a voice in a frame of the recording, added up.
    pub open spec fn said_by_windows(
        self,
        of: spec_fn(A) -> real,
        config: DiarizationConfig<T, A>,
        answers: Seq<Answer<A>>,
        frame: int,
        voice: int,
        n: int,
    ) -> real {
        exact::sum(self.window_says(of, config, answers, frame, voice), n)
    }

    /// How many frames of the first `n` windows fall on a frame of the recording.
    pub open spec fn times_said(
        self,
        config: DiarizationConfig<T, A>,
        answers: Seq<Answer<A>>,
        frame: int,
        n: int,
    ) -> real {
        exact::sum(self.window_counts(config, answers, frame), n)
    }

    proof fn lemma_windows_add_up(
        self,
        of: spec_fn(A) -> real,
        config: DiarizationConfig<T, A>,
        total: int,
        answers: Seq<Answer<A>>,
        frame: int,
        voice: int,
        n: int,
    )
        requires
            weighs_exactly(of, self.rules.zero, self.rules.one),
            0 <= frame,
            0 <= voice < 3,
            0 <= n,
        ensures
            ({
                let cells = self.cells_after(config, total, answers, n);
                &&& of(number_at(cells, self.rules.zero, frame, voice)) == self.said_by_windows(
                    of,
                    config,
                    answers,
                    frame,
                    voice,
                    n,
                )
                &&& of(weight_at(cells, self.rules.zero, frame)) == self.times_said(
                    config,
                    answers,
                    frame,
                    n,
                )
            }),
        decreases n,
    {
        if n > 0 {
            self.lemma_windows_add_up(of, config, total, answers, frame, voice, n - 1);
            law_window_adds_what_it_says(
                of,
                self.cells_after(config, total, answers, n - 1),
                self.rows_said(answers, n - 1),
                self.places(config, answers, n - 1),
                self.rules.zero,
                self.rules.one,
                frame,
                voice,
                answers[n - 1]->Ok_0.frames as int,
            );
        }
    }

    /// Every frame of the recording has the average of what all windows say of it: for
    /// each voice, times how often the frame was scored, it is the sum of what the rows
    /// say that fall on it. A frame that nothing falls on has nothing.
    pub proof fn law_frames_have_the_average_of_what_is_said(
        self,
        of: spec_fn(A) -> real,
        config: DiarizationConfig<T, A>,
        total: int,
        answers: Seq<Answer<A>>,
        frame: int,
        voice: int,
    )
        requires
            weighs_exactly(of, self.rules.zero, self.rules.one),
            0 <= frame < self.averaged_cells(config, total, answers).len(),
            0 <= voice < 3,
        ensures
            ({
                let n = answers.len() as int;
                let average = of(
                    self.averaged_cells(config, total, answers)[frame].voice(voice),
                );
                let said = self.said_by_windows(of, config, answers, frame, voice, n);
                let times = self.times_said(config, answers, frame, n);
                &&& times > 0real ==> average * times == said
                &&& times <= 0real ==> average == said
            }),
    {
        self.lemma_windows_add_up(
            of,
            config,
            total,
            answers,
            frame,
            voice,
            answers.len() as int,
        );
    }

    /// Frame `f` of window `k` falls on a frame of the recording.
    pub open spec fn falls_on(
        self,
        config: DiarizationConfig<T, A>,
        answers: Seq<Answer<A>>,
        k: int,
        f: int,
        frame: int,
    ) -> bool {
        &&& 0 <= k < answers.len()
        &&& 0 <= f < answers[k]->Ok_0.frames
        &&& self.places(config, answers, k)[f] == frame
    }

    /// How likely a voice is heard in frame `f` of window `k`.
    pub open spec fn chance(
        self,
        of: spec_fn(A) -> real,
        answers: Seq<Answer<A>>,
        k: int,
        f: int,
        voice: int,
    ) -> real {
        of(activity::likelihood(self.rows_said(answers, k)[f], self.rules.zero, voice))
    }

    /// Some frame of a window falls on a frame of the recording, and in all that do the
    /// voice is at least as likely as the threshold.
    pub open spec fn is_heard_in(
        self,
        of: spec_fn(A) -> real,
        config: DiarizationConfig<T, A>,
        answers: Seq<Answer<A>>,
        frame: int,
        voice: int,
    ) -> bool {
        &&& exists|k: int, f: int| #[trigger] self.falls_on(config, answers, k, f, frame)
        &&& forall|k: int, f: int| #[trigger]
            self.falls_on(config, answers, k, f, frame) ==> self.chance(of, answers, k, f, voice)
                >= of(self.rules.threshold)
    }

    /// In no frame of a window that falls on a frame of the recording the voice is as
    /// likely as the threshold.
    pub open spec fn is_silent_in(
        self,
        of: spec_fn(A) -> real,
        config: DiarizationConfig<T, A>,
        answers: Seq<Answer<A>>,
        frame: int,
        voice: int,
    ) -> bool {
        forall|k: int, f: int| #[trigger]
            self.falls_on(config, answers, k, f, frame) ==> self.chance(of, answers, k, f, voice)
                < of(self.rules.threshold)
    }

    /// Where all windows agree on a frame, so does the average: a voice that all of them
    /// hear counts, and one that none of them hears does not.
    pub proof fn law_average_follows_the_windows(
        self,
        of: spec_fn(A) -> real,
        config: DiarizationConfig<T, A>,
        total: int,
        answers: Seq<Answer<A>>,
        frame: int,
        voice: int,
    )
        requires
            weighs_exactly(of, self.rules.zero, self.rules.one),
            of(self.rules.threshold) > 0real,
            0 <= frame < self.averaged_cells(config, total, answers).len(),
            0 <= voice < 3,
        ensures
            self.is_heard_in(of, config, answers, frame, voice) ==> of(
                self.averaged_cells(config, total, answers)[frame].voice(voice),
            ) >= of(self.rules.threshold),
            self.is_silent_in(of, config, answers, frame, voice) ==> of(
                self.averaged_cells(config, total, answers)[frame].voice(voice),
            ) < of(self.rules.threshold),
    {
        let n = answers.len() as int;
        let t = of(self.rules.threshold);
        let zero = self.rules.zero;
        let average = of(self.averaged_cells(config, total, answers)[frame].voice(voice));
        let said = self.said_by_windows(of, config, answers, frame, voice, n);
        let times = self.times_said(config, answers, frame, n);
        self.law_frames_have_the_average_of_what_is_said(
            of,
            config,
            total,
            answers,
            frame,
            voice,
        );
        let says = self.window_says(of, config, answers, frame, voice);
        let often = self.window_counts(config, answers, frame);
        if self.is_heard_in(of, config, answers, frame, voice) {
            assert forall|k: int| 0 <= k < n implies #[trigger] says(k) >= t * often(k)
                && often(k) >= 0real by {
                self.lemma_window_hears(of, config, answers, frame, voice, k);
            }
            exact::lemma_sum_at_least(says, often, t, n);
            let (k, f) = choose|k: int, f: int| #[trigger]
                self.falls_on(config, answers, k, f, frame);
            lemma_row_counts(
                self.places(config, answers, k),
                frame,
                f,
                answers[k]->Ok_0.frames as int,
            );
            assert forall|l: int| 0 <= l < n implies #[trigger] often(l) >= 0real by {
                self.lemma_window_hears(of, config, answers, frame, voice, l);
            }
            exact::lemma_sum_positive(often, k, n);
            assert(average >= t) by (nonlinear_arith)
                requires
                    average * times == said,
                    said >= t * times,
                    times > 0real,
            ;
        }
        if self.is_silent_in(of, config, answers, frame, voice) {
            assert forall|k: int| 0 <= k < n implies #[trigger] exact::is_below(
                says,
                often,
                t,
                k,
            ) by {
                self.lemma_window_is_silent(of, config, answers, frame, voice, k);
            }
            exact::lemma_sum_below(says, often, t, n);
            if times > 0real {
                assert(average < t) by (nonlinear_arith)
                    requires
                        average * times == said,
                        said < t * times,
                        times > 0real,
                ;
            }
        }
    }

    proof fn lemma_window_hears(
        self,
        of: spec_fn(A) -> real,
        config: DiarizationConfig<T, A>,
        answers: Seq<Answer<A>>,
        frame: int,
        voice: int,
        k: int,
    )
        requires
            0 <= k < answers.len(),
            self.is_heard_in(of, config, answers, frame, voice),
        ensures
            ({
                let places = self.places(config, answers, k);
                let frames = answers[k]->Ok_0.frames as int;
                &&& said_of(
                    of,
                    self.rows_said(answers, k),
                    places,
                    self.rules.zero,
                    frame,
                    voice,
                    frames,
                ) >= of(self.rules.threshold) * rows_at(places, frame, frames)
                &&& rows_at(places, frame, frames) >= 0real
            }),
    {
        let places = self.places(config, answers, k);
        let rows = self.rows_said(answers, k);
        let frames = answers[k]->Ok_0.frames as int;
        let t = of(self.rules.threshold);
        let zero = self.rules.zero;
        let says = row_says(of, rows, places, zero, frame, voice);
        let counts = row_counts(places, frame);
        assert forall|f: int| 0 <= f < frames implies #[trigger] says(f) >= t * counts(f) by {
            if places[f] == frame {
                assert(self.falls_on(config, answers, k, f, frame));
            }
            assert(t * 0real == 0real && t * 1real == t) by (nonlinear_arith);
        }
        exact::lemma_sum_at_least(says, counts, t, frames);
        exact::lemma_sum_at_least(counts, |f: int| 0real, 1real, frames);
        exact::lemma_sum_of_nothing(frames);
    }

    proof fn lemma_window_is_silent(
        self,
        of: spec_fn(A) -> real,
        config: DiarizationConfig<T, A>,
        answers: Seq<Answer<A>>,
        frame: int,
        voice: int,
        k: int,
    )
        requires
            0 <= k < answers.len(),
            self.is_silent_in(of, config, answers, frame, voice),
        ensures
            ({
                let places = self.places(config, answers, k);
                let frames = answers[k]->Ok_0.frames as int;
                let said = said_of(
                    of,
                    self.rows_said(answers, k),
                    places,
                    self.rules.zero,
                    frame,
                    voice,
                    frames,
                );
                let often = rows_at(places, frame, frames);
                &&& often >= 0real
                &&& often > 0real ==> said < of(self.rules.threshold) * often
                &&& often == 0real ==> said == 0real
            }),
    {
        let places = self.places(config, answers, k);
        let rows = self.rows_said(answers, k);
        let frames = answers[k]->Ok_0.frames as int;
        let t = of(self.rules.threshold);
        let zero = self.rules.zero;
        let says = row_says(of, rows, places, zero, frame, voice);
        let counts = row_counts(places, frame);
        assert forall|f: int| 0 <= f < frames implies #[trigger] exact::is_below(
            says,
            counts,
            t,
            f,
        ) by {
            if places[f] == frame {
                assert(self.falls_on(config, answers, k, f, frame));
                assert(t * 1real == t) by (nonlinear_arith);
            }
        }
        exact::lemma_sum_below(says, counts, t, frames);
    }
}

/// A row that goes to a frame is counted.
proof fn lemma_row_counts(positions: Seq<usize>, frame: int, f: int, n: int)
    requires
        0 <= f < n,
        positions[f] == frame,
    ensures
        rows_at(positions, frame, n) > 0real,
{
    let counts = row_counts(positions, frame);
    exact::lemma_sum_positive(counts, f, n);
}

impl<A, T, N, W, R, C, X, M> SegmentationEngine<A, T, N, W, R, C, X, M> where
    A: Copy + PartialOrd + Add<Output = A> + Sub<Output = A> + Div<Output = A>,
    T: Copy + PartialOrd + Add<Output = T> + Mul<Output = T> + Div<Output = T>,
    N: Fn(usize) -> T,
    W: Fn(T) -> usize,
    R: Fn(T) -> usize,
    C: Fn(T) -> usize,
    X: Fn(A) -> A,
    M: Fn(&Tensor<A>) -> Answer<A>,
 {
    /// What is added up for a class is the exponential of its score, less the largest
    /// score of the frame: class `c` of frame `f` is read where the model puts it.
    pub proof fn law_exponentials_are_of_the_scores(
        self,
        of: spec_fn(A) -> real,
        answers: Seq<Answer<A>>,
        k: int,
        f: int,
        c: int,
    )
        requires
            exact::subtracts(of),
            exact::compares(of),
            0 <= f < answers[k]->Ok_0.frames,
            0 <= c < 7,
            forall|d: int|
                0 <= d < 7 ==> of(self.rules.lowest) <= of(
                    #[trigger] answers[k]->Ok_0.data@[f * answers[k]->Ok_0.classes + d],
                ),
        ensures
            self.rows_said(answers, k)[f].len() == 7,
            exists|x: A, top: int|
                #![trigger of(x), answers[k]->Ok_0.data@[f * answers[k]->Ok_0.classes + top]]
                {
                    let scores = answers[k]->Ok_0;
                    let score = |d: int| of(scores.data@[f * scores.classes + d]);
                    &&& self.rows_said(answers, k)[f][c] == functions::value(self.exp, x)
                    &&& 0 <= top < 7
                    &&& forall|d: int| 0 <= d < 7 ==> #[trigger] score(d) <= score(top)
                    &&& of(x) == score(c) - score(top)
                },
    {
        let scores = answers[k]->Ok_0;
        let row = segmentation::row(scores, f);
        let score = |d: int| of(scores.data@[f * scores.classes + d]);
        assert forall|d: int| 0 <= d < 7 implies row[d] == #[trigger] scores.data@[f
            * scores.classes + d] && of(self.rules.lowest) <= score(d) by {}
        let p = activity::peak(row, self.rules.lowest, 7);
        assert forall|d: int| 0 <= d < 7 implies of(self.rules.lowest) <= of(#[trigger] row[d]) by {
            assert(row[d] == scores.data@[f * scores.classes + d]);
        }
        let top = lemma_peak_is_a_score(of, row, self.rules.lowest, 7);
        assert forall|d: int| 0 <= d < 7 implies #[trigger] score(d) <= score(top) by {
            assert(of(row[d]) <= of(row[top]));
        }
        let x = activity::lowered(row, self.rules.lowest)[c];
        assert(of(x) == score(c) - score(top));
        assert((f * 7 + c) / 7 == f && (f * 7 + c) % 7 == c);
        assert(self.rows_said(answers, k)[f][c] == self.exponentials(scores)[f * 7 + c]);
        assert(self.rows_said(answers, k)[f][c] == functions::value(self.exp, x));
        assert(of(scores.data@[f * scores.classes + top]) == score(top));
    }

    /// The longest gap and the least length, in frames, are the counts nearest to what
    /// they are in seconds.
    pub proof fn law_limits_are_counted_in_frames(self, of: spec_fn(T) -> real, frame_secs: T)
        requires
            self.keeps_time(of),
            of(frame_secs) > 0real,
            0real <= of(self.rules.max_gap_secs) < usize::MAX as real * of(frame_secs),
            0real <= of(self.rules.min_duration_secs) < usize::MAX as real * of(frame_secs),
        ensures
            2real * (of(self.rules.max_gap_secs) - self.max_gap(frame_secs) as real * of(
                frame_secs,
            )) <= of(frame_secs),
            2real * (self.max_gap(frame_secs) as real * of(frame_secs) - of(
                self.rules.max_gap_secs,
            )) <= of(frame_secs),
            2real * (of(self.rules.min_duration_secs) - self.min_len(frame_secs) as real * of(
                frame_secs,
            )) <= of(frame_secs),
            2real * (self.min_len(frame_secs) as real * of(frame_secs) - of(
                self.rules.min_duration_secs,
            )) <= of(frame_secs),
    {
        let frame = of(frame_secs);
        let most = usize::MAX as real;
        let x = self.rules.max_gap_secs.div_spec(frame_secs);
        let y = self.rules.min_duration_secs.div_spec(frame_secs);
        lemma_quotient_in_range(of(x), of(self.rules.max_gap_secs), frame, most);
        lemma_quotient_in_range(of(y), of(self.rules.min_duration_secs), frame, most);
        lemma_nearest_count(
            of(x),
            of(self.rules.max_gap_secs),
            frame,
            functions::value(self.clock.round, x) as real,
        );
        lemma_nearest_count(
            of(y),
            of(self.rules.min_duration_secs),
            frame,
            functions::value(self.clock.round, y) as real,
        );
    }

    /// A voice is likely enough in a frame of the recording.
    pub open spec fn counts_in(
        self,
        of: spec_fn(A) -> real,
        config: DiarizationConfig<T, A>,
        total: int,
        answers: Seq<Answer<A>>,
        frame: int,
        voice: int,
    ) -> bool {
        of(self.averaged_cells(config, total, answers)[frame].voice(voice)) >= of(
            self.rules.threshold,
        )
    }

    proof fn lemma_loud_is_likely(
        self,
        of: spec_fn(A) -> real,
        config: DiarizationConfig<T, A>,
        total: int,
        answers: Seq<Answer<A>>,
        frame: int,
        voice: int,
    )
        requires
            exact::compares(of),
            0 <= frame < self.averaged_cells(config, total, answers).len(),
            0 <= voice < 3,
        ensures
            activity::loud(
                self.averaged_cells(config, total, answers),
                voice,
                self.rules.threshold,
            )[frame] == self.counts_in(of, config, total, answers, frame, voice),
    {
    }

    /// Speech is found where the windows hear it. If all windows hear a voice in the
    /// frames from `i` to before `j` of the recording, which are enough, and none hears
    /// it in the frames before and after for as long as the longest gap, then there is a
    /// segment of that voice that starts when frame `i` starts, and ends when frame `j`
    /// starts or with the recording.
    pub proof fn law_speech_is_found(
        self,
        of: spec_fn(T) -> real,
        chances: spec_fn(A) -> real,
        samples: Seq<A>,
        config: DiarizationConfig<T, A>,
        answers: Seq<Answer<A>>,
        segments: Vec<DiarizationSegment<T>>,
        voice: usize,
        i: int,
        j: int,
    )
        requires
            self.fits(samples, config),
            self.may_answer(samples, config, answers),
            self.concludes(config, samples.len() as int, answers, Ok(segments)),
            0 < samples.len() <= usize::MAX,
            config.sample_rate > 0,
            answers[0]->Ok_0.frames > 0,
            self.keeps_time(of),
            weighs_exactly(chances, self.rules.zero, self.rules.one),
            chances(self.rules.threshold) > 0real,
            voice < 3,
            0 <= i < j <= self.averaged_cells(config, samples.len() as int, answers).len(),
            self.averaged_cells(config, samples.len() as int, answers).len() <= usize::MAX,
            forall|p: int|
                i <= p < j ==> #[trigger] self.is_heard_in(
                    chances,
                    config,
                    answers,
                    p,
                    voice as int,
                ),
            ({
                let frame_secs = self.frame_secs(config, answers[0]->Ok_0.frames);
                &&& forall|p: int|
                    i - self.max_gap(frame_secs) - 1 <= p < i || j <= p <= j + self.max_gap(
                        frame_secs,
                    ) ==> #[trigger] self.is_silent_in(chances, config, answers, p, voice as int)
                &&& j - i >= self.min_len(frame_secs)
                &&& i as real * of(frame_secs) * (config.sample_rate as real)
                    < samples.len() as real
                &&& of(frame_secs) > 0real
            }),
        ensures
            exists|s: int|
                0 <= s < segments@.len() && {
                    let frame = of(config.segmentation_window_secs) / (
                    answers[0]->Ok_0.frames as real);
                    let end = j as real * frame;
                    let length = samples.len() as real / (config.sample_rate as real);
                    &&& (#[trigger] segments@[s]).speaker_id == voice
                    &&& of(segments@[s].start) == i as real * frame
                    &&& of(segments@[s].end) == (if end <= length {
                        end
                    } else {
                        length
                    })
                },
    {
        let total = samples.len() as int;
        let cells = self.averaged_cells(config, total, answers);
        let first = answers[0]->Ok_0.frames;
        let frame_secs = self.frame_secs(config, first);
        let gap = self.max_gap(frame_secs);
        let times = self.times(frame_secs, cells.len());
        let duration = self.duration(config, total);
        let active = activity::loud(cells, voice as int, self.rules.threshold);
        let frames = speech::bridged(active, gap);
        assert forall|p: int|
            0 <= p < cells.len() && i - gap - 1 <= p < j + gap + 1 implies #[trigger] active[p] == (
        i <= p < j) by {
            self.law_average_follows_the_windows(
                chances,
                config,
                total,
                answers,
                p,
                voice as int,
            );
            self.lemma_loud_is_likely(chances, config, total, answers, p, voice as int);
            if i <= p < j {
                assert(self.is_heard_in(chances, config, answers, p, voice as int));
            } else {
                assert(self.is_silent_in(chances, config, answers, p, voice as int));
            }
        }
        assert forall|p: int| i <= p < j implies frames[p] by {
            assert(active[p]);
            speech::law_frames_between_near_ones_are_active(active, gap, p);
        }
        if i > 0 {
            speech::law_frames_between_near_ones_are_active(active, gap, i - 1);
            assert(!active[i - 1]);
            if speech::lies_between(active, gap, i - 1) {
                let (p, q) = choose|p: int, q: int|
                    #![trigger active[p], active[q]]
                    0 <= p < i - 1 < q < active.len() && active[p] && active[q] && q - p - 1 <= gap;
                assert(active[p]);
            }
        }
        if j < cells.len() {
            speech::law_frames_between_near_ones_are_active(active, gap, j);
            assert(!active[j]);
            if speech::lies_between(active, gap, j) {
                let (p, q) = choose|p: int, q: int|
                    #![trigger active[p], active[q]]
                    0 <= p < j < q < active.len() && active[p] && active[q] && q - p - 1 <= gap;
                assert(active[q]);
            }
        }
        self.law_times_are_seconds(config, of, total as usize, first, i as usize, cells.len());
        self.law_times_are_seconds(config, of, total as usize, first, j as usize, cells.len());
        let end = if scalar::gt(times[j], duration) {
            duration
        } else {
            times[j]
        };
        let window = of(config.segmentation_window_secs);
        let frame = window / (first as real);
        let rate = config.sample_rate as real;
        let length = total as real / rate;
        assert(of(frame_secs) == frame) by (nonlinear_arith)
            requires
                of(frame_secs) * (first as real) == window,
                frame == window / (first as real),
                first as real > 0real,
        ;
        assert(of(duration) == length) by (nonlinear_arith)
            requires
                of(duration) * rate == total as real,
                length == total as real / rate,
                rate > 0real,
        ;
        assert(i as real * frame < length) by (nonlinear_arith)
            requires
                i as real * frame * rate < total as real,
                length == total as real / rate,
                rate > 0real,
        ;
        assert(i as real * frame < j as real * frame) by (nonlinear_arith)
            requires
                i < j,
                frame > 0real,
        ;
        speech::law_every_long_stretch_is_found(
            cells,
            self.rules.threshold,
            gap,
            self.min_len(frame_secs),
            times,
            duration,
            voice,
            i,
            j,
            end,
        );
        let segment = DiarizationSegment { start: times[i], end, speaker_id: voice };
        let heard = self.heard_segments(config, total, answers);
        assert(heard.contains(segment));
        self.lemma_heard_line_up(samples, config, answers, segments);
        order::law_sorting_puts_in_order(heard);
        order::lemma_sorting_keeps_segments(heard, segments@);
        assert(segments@.contains(segment));
        let s = choose|s: int| 0 <= s < segments@.len() && segments@[s] == segment;
        assert(segments@[s].speaker_id == voice);
    }
}

impl<A, T, N, W, R, C, X, M> SegmentationEngine<A, T, N, W, R, C, X, M> where
    A: Copy + PartialOrd + Add<Output = A> + Sub<Output = A> + Div<Output = A>,
    T: Copy + PartialOrd + Add<Output = T> + Mul<Output = T> + Div<Output = T>,
    N: Fn(usize) -> T,
    W: Fn(T) -> usize,
    R: Fn(T) -> usize,
    C: Fn(T) -> usize,
    X: Fn(A) -> A,
    M: Fn(&Tensor<A>) -> Answer<A>,
 {
    /// A voice is likely enough in a frame of the recording, or in a frame before and a
    /// frame after it that are no further apart than the longest gap.
    pub open spec fn is_backed(
        self,
        of: spec_fn(A) -> real,
        config: DiarizationConfig<T, A>,
        total: int,
        answers: Seq<Answer<A>>,
        max_gap: int,
        frame: int,
        voice: int,
    ) -> bool {
        ||| self.counts_in(of, config, total, answers, frame, voice)
        ||| exists|p: int, q: int|
            #![trigger self.counts_in(of, config, total, answers, p, voice), self.counts_in(
                of,
                config,
                total,
                answers,
                q,
                voice,
            )]
            0 <= p < frame < q < self.averaged_cells(config, total, answers).len() && q - p - 1
                <= max_gap && self.counts_in(of, config, total, answers, p, voice)
                && self.counts_in(of, config, total, answers, q, voice)
    }

    /// A segment is made of the frames from `i` to before `j`: it has their times, they
    /// are enough, and each of them is backed.
    pub open spec fn is_made_of(
        self,
        of: spec_fn(T) -> real,
        chances: spec_fn(A) -> real,
        samples: Seq<A>,
        config: DiarizationConfig<T, A>,
        answers: Seq<Answer<A>>,
        segment: DiarizationSegment<T>,
        i: int,
        j: int,
    ) -> bool {
        let total = samples.len() as int;
        let frame = of(config.segmentation_window_secs) / (answers[0]->Ok_0.frames as real);
        let length = total as real / (config.sample_rate as real);
        let frame_secs = self.frame_secs(config, answers[0]->Ok_0.frames);
        &&& 0 <= i < j <= self.averaged_cells(config, total, answers).len()
        &&& segment.speaker_id < 3
        &&& of(segment.start) == i as real * frame
        &&& of(segment.end) == (if j as real * frame <= length {
            j as real * frame
        } else {
            length
        })
        &&& j - i >= self.min_len(frame_secs)
        &&& self.is_backed_stretch(
            chances,
            config,
            total,
            answers,
            self.max_gap(frame_secs),
            segment.speaker_id as int,
            i,
            j,
        )
    }

    /// The frames from `i` to before `j` are all backed, and those next to them are not.
    pub open spec fn is_backed_stretch(
        self,
        of: spec_fn(A) -> real,
        config: DiarizationConfig<T, A>,
        total: int,
        answers: Seq<Answer<A>>,
        max_gap: int,
        voice: int,
        i: int,
        j: int,
    ) -> bool {
        let count = self.averaged_cells(config, total, answers).len();
        &&& 0 <= i < j <= count
        &&& forall|p: int|
            i <= p < j ==> #[trigger] self.is_backed(
                of,
                config,
                total,
                answers,
                max_gap,
                p,
                voice,
            )
        &&& i > 0 ==> !self.is_backed(of, config, total, answers, max_gap, i - 1, voice)
        &&& j < count ==> !self.is_backed(of, config, total, answers, max_gap, j, voice)
    }

    /// A frame is backed exactly when it counts as active once short gaps are closed.
    proof fn lemma_backed_is_active(
        self,
        of: spec_fn(A) -> real,
        config: DiarizationConfig<T, A>,
        total: int,
        answers: Seq<Answer<A>>,
        max_gap: int,
        frame: int,
        voice: int,
    )
        requires
            exact::compares(of),
            0 <= frame < self.averaged_cells(config, total, answers).len(),
            0 <= voice < 3,
        ensures
            speech::bridged(
                activity::loud(
                    self.averaged_cells(config, total, answers),
                    voice,
                    self.rules.threshold,
                ),
                max_gap,
            )[frame] <==> self.is_backed(of, config, total, answers, max_gap, frame, voice),
    {
        let cells = self.averaged_cells(config, total, answers);
        let active = activity::loud(cells, voice, self.rules.threshold);
        speech::law_frames_between_near_ones_are_active(active, max_gap, frame);
        assert forall|p: int| 0 <= p < cells.len() implies #[trigger] active[p] == self.counts_in(
            of,
            config,
            total,
            answers,
            p,
            voice,
        ) by {
            self.lemma_loud_is_likely(of, config, total, answers, p, voice);
        }
        assert(active[frame] == self.counts_in(of, config, total, answers, frame, voice));
        if speech::lies_between(active, max_gap, frame) {
            let (p, q) = choose|p: int, q: int|
                #![trigger active[p], active[q]]
                0 <= p < frame < q < active.len() && active[p] && active[q] && q - p - 1 <= max_gap;
            assert(self.counts_in(of, config, total, answers, p, voice));
            assert(self.counts_in(of, config, total, answers, q, voice));
        } else if !active[frame] && self.is_backed(
            of,
            config,
            total,
            answers,
            max_gap,
            frame,
            voice,
        ) {
            let (p, q) = choose|p: int, q: int|
                #![trigger self.counts_in(of, config, total, answers, p, voice), self.counts_in(
                    of,
                    config,
                    total,
                    answers,
                    q,
                    voice,
                )]
                0 <= p < frame < q < cells.len() && q - p - 1 <= max_gap && self.counts_in(
                    of,
                    config,
                    total,
                    answers,
                    p,
                    voice,
                ) && self.counts_in(of, config, total, answers, q, voice);
            assert(active[p] && active[q]);
        }
    }

    /// What was heard is found: whenever a voice is backed in enough frames one after the
    /// other, and not in the frames next to them, a segment of that voice has their times.
    pub proof fn law_no_speech_is_missed(
        self,
        of: spec_fn(T) -> real,
        chances: spec_fn(A) -> real,
        samples: Seq<A>,
        config: DiarizationConfig<T, A>,
        answers: Seq<Answer<A>>,
        segments: Vec<DiarizationSegment<T>>,
        voice: usize,
        i: int,
        j: int,
    )
        requires
            self.fits(samples, config),
            self.may_answer(samples, config, answers),
            self.concludes(config, samples.len() as int, answers, Ok(segments)),
            0 < samples.len() <= usize::MAX,
            config.sample_rate > 0,
            answers[0]->Ok_0.frames > 0,
            self.keeps_time(of),
            of(config.segmentation_window_secs) > 0real,
            exact::compares(chances),
            voice < 3,
            self.averaged_cells(config, samples.len() as int, answers).len() <= usize::MAX,
            ({
                let frame_secs = self.frame_secs(config, answers[0]->Ok_0.frames);
                &&& self.is_backed_stretch(
                    chances,
                    config,
                    samples.len() as int,
                    answers,
                    self.max_gap(frame_secs),
                    voice as int,
                    i,
                    j,
                )
                &&& j - i >= self.min_len(frame_secs)
            }),
            i as real * of(config.segmentation_window_secs) * (config.sample_rate as real)
                < samples.len() as real * (answers[0]->Ok_0.frames as real),
        ensures
            exists|s: int|
                0 <= s < segments@.len() && (#[trigger] segments@[s]).speaker_id == voice
                    && self.is_made_of(
                    of,
                    chances,
                    samples,
                    config,
                    answers,
                    segments@[s],
                    i,
                    j,
                ),
    {
        let total = samples.len() as int;
        let cells = self.averaged_cells(config, total, answers);
        let first = answers[0]->Ok_0.frames;
        let frame_secs = self.frame_secs(config, first);
        let gap = self.max_gap(frame_secs);
        let times = self.times(frame_secs, cells.len());
        let duration = self.duration(config, total);
        let active = activity::loud(cells, voice as int, self.rules.threshold);
        let frames = speech::bridged(active, gap);
        assert forall|p: int| 0 <= p < cells.len() implies #[trigger] frames[p] == self.is_backed(
            chances,
            config,
            total,
            answers,
            gap,
            p,
            voice as int,
        ) by {
            self.lemma_backed_is_active(chances, config, total, answers, gap, p, voice as int);
        }
        self.law_times_are_seconds(config, of, total as usize, first, i as usize, cells.len());
        self.law_times_are_seconds(config, of, total as usize, first, j as usize, cells.len());
        let end = if scalar::gt(times[j], duration) {
            duration
        } else {
            times[j]
        };
        let window = of(config.segmentation_window_secs);
        let frame = window / (first as real);
        let rate = config.sample_rate as real;
        let length = total as real / rate;
        assert(of(frame_secs) == frame && frame > 0real) by (nonlinear_arith)
            requires
                of(frame_secs) * (first as real) == window,
                frame == window / (first as real),
                first as real > 0real,
                window > 0real,
        ;
        assert(of(duration) == length) by (nonlinear_arith)
            requires
                of(duration) * rate == total as real,
                length == total as real / rate,
                rate > 0real,
        ;
        let start = i as real * frame;
        assert(start * (first as real) == i as real * window) by (nonlinear_arith)
            requires
                start == i as real * frame,
                frame == window / (first as real),
                first as real > 0real,
        ;
        assert(start < length) by (nonlinear_arith)
            requires
                start * (first as real) == i as real * window,
                i as real * window * rate < total as real * (first as real),
                length == total as real / rate,
                rate > 0real,
                first as real > 0real,
        ;
        assert(i as real * frame < j as real * frame) by (nonlinear_arith)
            requires
                i < j,
                frame > 0real,
        ;
        speech::law_every_long_stretch_is_found(
            cells,
            self.rules.threshold,
            gap,
            self.min_len(frame_secs),
            times,
            duration,
            voice,
            i,
            j,
            end,
        );
        let segment = DiarizationSegment { start: times[i], end, speaker_id: voice };
        let heard = self.heard_segments(config, total, answers);
        assert(heard.contains(segment));
        self.lemma_heard_line_up(samples, config, answers, segments);
        order::law_sorting_puts_in_order(heard);
        order::lemma_sorting_keeps_segments(heard, segments@);
        assert(segments@.contains(segment));
        let s = choose|s: int| 0 <= s < segments@.len() && segments@[s] == segment;
        assert(self.is_made_of(of, chances, samples, config, answers, segments@[s], i, j));
        assert(segments@[s].speaker_id == voice);
    }

    /// When frame `f` of window `k` is heard, in seconds from the start of the recording.
    pub open spec fn heard_at(
        self,
        of: spec_fn(T) -> real,
        config: DiarizationConfig<T, A>,
        answers: Seq<Answer<A>>,
        k: int,
        f: int,
    ) -> real {
        (k * self.hop(config)) as real / (config.sample_rate as real) + f as real * (of(
            config.segmentation_window_secs,
        ) / (answers[0]->Ok_0.frames as real))
    }

    /// Frame `f` of window `k` is one that the model scored.
    pub open spec fn is_scored(self, answers: Seq<Answer<A>>, k: int, f: int) -> bool {
        0 <= k < answers.len() && 0 <= f < answers[k]->Ok_0.frames
    }

    /// The model hears a voice in every frame of a window from time `s` on before `e`, and
    /// in none within `around` before and after that.
    pub open spec fn is_heard_between(
        self,
        of: spec_fn(T) -> real,
        chances: spec_fn(A) -> real,
        config: DiarizationConfig<T, A>,
        answers: Seq<Answer<A>>,
        voice: int,
        s: real,
        e: real,
        around: real,
    ) -> bool {
        forall|k: int, f: int| #[trigger]
            self.is_scored(answers, k, f) ==> {
                let t = self.heard_at(of, config, answers, k, f);
                &&& s <= t < e ==> self.chance(chances, answers, k, f, voice) >= chances(
                    self.rules.threshold,
                )
                &&& s - around <= t < s || e <= t < e + around ==> self.chance(
                    chances,
                    answers,
                    k,
                    f,
                    voice,
                ) < chances(self.rules.threshold)
            }
    }

    /// Every frame of the recording well between two times has a frame of a window that
    /// falls on it.
    pub open spec fn is_covered_between(
        self,
        config: DiarizationConfig<T, A>,
        answers: Seq<Answer<A>>,
        frame: real,
        s: real,
        e: real,
    ) -> bool {
        forall|p: int|
            0 <= p && s + frame / 2real <= p as real * frame < e - frame / 2real
                ==> #[trigger] self.is_covered(config, answers, p)
    }

    /// A frame of a window falls on a frame of the recording.
    pub open spec fn is_covered(
        self,
        config: DiarizationConfig<T, A>,
        answers: Seq<Answer<A>>,
        p: int,
    ) -> bool {
        exists|k: int, f: int| #[trigger] self.falls_on(config, answers, k, f, p)
    }

    /// Where a voice is heard throughout, or nowhere, near a frame of the recording, it
    /// counts in that frame or does not.
    proof fn lemma_counted_by_time(
        self,
        of: spec_fn(T) -> real,
        chances: spec_fn(A) -> real,
        samples: Seq<A>,
        config: DiarizationConfig<T, A>,
        answers: Seq<Answer<A>>,
        voice: int,
        frame: real,
        s: real,
        e: real,
        around: real,
        p: int,
    )
        requires
            self.may_answer(samples, config, answers),
            self.hop(config) > 0,
            samples.len() <= usize::MAX,
            config.sample_rate > 0,
            answers[0]->Ok_0.frames > 0,
            self.keeps_time(of),
            of(config.segmentation_window_secs) > 0real,
            weighs_exactly(chances, self.rules.zero, self.rules.one),
            chances(self.rules.threshold) > 0real,
            0 <= voice < 3,
            frame == of(config.segmentation_window_secs) / (answers[0]->Ok_0.frames as real),
            self.is_heard_between(of, chances, config, answers, voice, s, e, around),
            forall|k: int, f: int| #[trigger]
                self.is_scored(answers, k, f) ==> self.heard_at(of, config, answers, k, f)
                    < usize::MAX as real * frame,
            0 <= p < self.averaged_cells(config, samples.len() as int, answers).len(),
        ensures
            s + frame / 2real <= p as real * frame < e - frame / 2real && self.is_covered(
                config,
                answers,
                p,
            ) ==> self.counts_in(chances, config, samples.len() as int, answers, p, voice),
            s - around + frame / 2real <= p as real * frame < s - frame / 2real ==> !self.counts_in(
                chances,
                config,
                samples.len() as int,
                answers,
                p,
                voice,
            ),
            e + frame / 2real <= p as real * frame < e + around - frame / 2real ==> !self.counts_in(
                chances,
                config,
                samples.len() as int,
                answers,
                p,
                voice,
            ),
    {
        let total = samples.len() as int;
        let first = answers[0]->Ok_0.frames;
        self.law_average_follows_the_windows(chances, config, total, answers, p, voice);
        assert forall|k: int, f: int| #[trigger]
            self.falls_on(config, answers, k, f, p) implies self.is_scored(answers, k, f) && {
            let t = self.heard_at(of, config, answers, k, f);
            p as real * frame - frame / 2real <= t <= p as real * frame + frame / 2real
        } by {
            assert(self.is_scored(answers, k, f));
            self.law_windows_show_the_recording(samples, config, answers, k);
            self.law_frames_count_for_the_time_they_were_heard(
                config,
                of,
                first,
                k,
                answers[k]->Ok_0.frames,
                f,
            );
        }
        if s + frame / 2real <= p as real * frame < e - frame / 2real && self.is_covered(
            config,
            answers,
            p,
        ) {
            assert(self.is_heard_in(chances, config, answers, p, voice));
        }
        if s - around + frame / 2real <= p as real * frame < s - frame / 2real || e + frame / 2real
            <= p as real * frame < e + around - frame / 2real {
            assert(self.is_silent_in(chances, config, answers, p, voice));
        }
    }

    /// Speech is found when it was heard. If the model hears a voice in every window from
    /// time `s` on before `e`, long enough, and not around that for as long as the longest
    /// gap, then there is a segment of that voice that starts and ends within one and a
    /// half frames of it.
    pub proof fn law_speech_is_found_when_it_was_heard(
        self,
        of: spec_fn(T) -> real,
        chances: spec_fn(A) -> real,
        samples: Seq<A>,
        config: DiarizationConfig<T, A>,
        answers: Seq<Answer<A>>,
        segments: Vec<DiarizationSegment<T>>,
        voice: usize,
        frame: real,
        s: real,
        e: real,
    )
        requires
            self.fits(samples, config),
            self.may_answer(samples, config, answers),
            self.concludes(config, samples.len() as int, answers, Ok(segments)),
            0 < samples.len() <= usize::MAX,
            config.sample_rate > 0,
            answers[0]->Ok_0.frames > 0,
            self.keeps_time(of),
            of(config.segmentation_window_secs) > 0real,
            weighs_exactly(chances, self.rules.zero, self.rules.one),
            chances(self.rules.threshold) > 0real,
            voice < 3,
            self.averaged_cells(config, samples.len() as int, answers).len() <= usize::MAX,
            frame == of(config.segmentation_window_secs) / (answers[0]->Ok_0.frames as real),
            forall|k: int, f: int| #[trigger]
                self.is_scored(answers, k, f) ==> self.heard_at(of, config, answers, k, f)
                    < usize::MAX as real * frame,
            0real <= s,
            e * (config.sample_rate as real) <= samples.len() as real,
            e < usize::MAX as real * frame,
            ({
                let frame_secs = self.frame_secs(config, answers[0]->Ok_0.frames);
                &&& self.is_heard_between(
                    of,
                    chances,
                    config,
                    answers,
                    voice as int,
                    s,
                    e,
                    (self.max_gap(frame_secs) + 3) as real * frame,
                )
                &&& (self.min_len(frame_secs) + 1) as real * frame <= e - s
                &&& 2real * frame <= e - s
            }),
            self.is_covered_between(config, answers, frame, s, e),
        ensures
            exists|n: int|
                0 <= n < segments@.len() && {
                    &&& (#[trigger] segments@[n]).speaker_id == voice
                    &&& s - frame / 2real <= of(segments@[n].start) <= s + 3real * frame / 2real
                    &&& e - frame / 2real <= of(segments@[n].end) <= e + 3real * frame / 2real
                },
    {
        let total = samples.len() as int;
        let cells = self.averaged_cells(config, total, answers);
        let count = cells.len() as int;
        let first = answers[0]->Ok_0.frames;
        let frame_secs = self.frame_secs(config, first);
        let gap = self.max_gap(frame_secs);
        let least = self.min_len(frame_secs);
        let around = (gap + 3) as real * frame;
        let window = of(config.segmentation_window_secs);
        let v = voice as int;
        assert(frame * (first as real) == window && frame > 0real) by (nonlinear_arith)
            requires
                frame == window / (first as real),
                first as real > 0real,
                window > 0real,
        ;
        let l = lemma_frame_before(s + frame / 2real, frame, usize::MAX as int);
        let r = lemma_frame_before(e - frame / 2real, frame, usize::MAX as int);
        let (lr, rr, g) = (l as real, r as real, gap as real);
        assert(r - l >= least && r > l) by {
            let m = (r + 1 - l) as real;
            assert(m * frame > e - s - frame) by (nonlinear_arith)
                requires
                    m == rr + 1real - lr,
                    lr * frame < s + frame / 2real,
                    e - frame / 2real <= (rr + 1real) * frame,
            ;
            let k = least as real;
            assert(m > k && m > 1real) by (nonlinear_arith)
                requires
                    m * frame > e - s - frame,
                    (k + 1real) * frame <= e - s,
                    2real * frame <= e - s,
                    frame > 0real,
            ;
        }
        assert forall|p: int| l < p <= r implies 0 <= p < count && #[trigger] self.counts_in(
            chances,
            config,
            total,
            answers,
            p,
            v,
        ) by {
            let x = p as real;
            assert(s + frame / 2real <= x * frame < e - frame / 2real) by (nonlinear_arith)
                requires
                    s + frame / 2real <= (lr + 1real) * frame,
                    rr * frame < e - frame / 2real,
                    lr + 1real <= x <= rr,
                    frame > 0real,
            ;
            assert(self.is_covered(config, answers, p));
            let (k, f) = choose|k: int, f: int| #[trigger] self.falls_on(config, answers, k, f, p);
            self.law_every_frame_that_is_heard_is_there(config, total, answers, k, f);
            self.lemma_counted_by_time(
                of,
                chances,
                samples,
                config,
                answers,
                v,
                frame,
                s,
                e,
                around,
                p,
            );
        }
        assert forall|p: int| 0 <= p < count && (l - gap - 1 <= p < l || r + 2 <= p <= r + 2 + gap)
            implies !(#[trigger] self.counts_in(chances, config, total, answers, p, v)) by {
            let x = p as real;
            if p < l {
                assert(s - around + frame / 2real <= x * frame < s - frame / 2real)
                    by (nonlinear_arith)
                    requires
                        around == (g + 3real) * frame,
                        lr * frame < s + frame / 2real,
                        s + frame / 2real <= (lr + 1real) * frame,
                        lr - g - 1real <= x <= lr - 1real,
                        frame > 0real,
                ;
            } else {
                assert(e + frame / 2real <= x * frame < e + around - frame / 2real)
                    by (nonlinear_arith)
                    requires
                        around == (g + 3real) * frame,
                        rr * frame < e - frame / 2real,
                        e - frame / 2real <= (rr + 1real) * frame,
                        rr + 2real <= x <= rr + 2real + g,
                        frame > 0real,
                ;
            }
            self.lemma_counted_by_time(
                of,
                chances,
                samples,
                config,
                answers,
                v,
                frame,
                s,
                e,
                around,
                p,
            );
        }
        let i = if self.counts_in(chances, config, total, answers, l, v) {
            l
        } else {
            l + 1
        };
        let j = if r + 1 < count && self.counts_in(chances, config, total, answers, r + 1, v) {
            r + 2
        } else {
            r + 1
        };
        assert(0 <= r < count) by {
            assert(self.counts_in(chances, config, total, answers, r, v));
        }
        assert forall|p: int| i <= p < j implies #[trigger] self.is_backed(
            chances,
            config,
            total,
            answers,
            gap,
            p,
            v,
        ) by {
            if l < p <= r {
                assert(self.counts_in(chances, config, total, answers, p, v));
            }
        }
        assert forall|p: int| 0 <= p < count && (i - gap - 1 <= p < i || j <= p <= j + gap)
            implies !(#[trigger] self.counts_in(chances, config, total, answers, p, v)) by {}
        assert(self.is_backed_stretch(chances, config, total, answers, gap, v, i, j));
        let rate = config.sample_rate as real;
        let (x, y) = (i as real, j as real);
        assert(x * frame <= s + 3real * frame / 2real && x * frame >= s - frame / 2real && x * frame
            < e) by (nonlinear_arith)
            requires
                lr * frame < s + frame / 2real,
                s + frame / 2real <= (lr + 1real) * frame,
                lr <= x <= lr + 1real,
                2real * frame <= e - s,
                frame > 0real,
        ;
        assert(e - frame / 2real <= y * frame <= e + 3real * frame / 2real) by (nonlinear_arith)
            requires
                rr * frame < e - frame / 2real,
                e - frame / 2real <= (rr + 1real) * frame,
                rr + 1real <= y <= rr + 2real,
                frame > 0real,
        ;
        let (n, t) = (first as real, total as real);
        assert(x * window * rate < t * n) by (nonlinear_arith)
            requires
                x * frame < e,
                e * rate <= t,
                frame * n == window,
                n > 0real,
                rate > 0real,
        ;
        self.law_no_speech_is_missed(of, chances, samples, config, answers, segments, voice, i, j);
        let at = choose|at: int|
            0 <= at < segments@.len() && (#[trigger] segments@[at]).speaker_id == voice
                && self.is_made_of(of, chances, samples, config, answers, segments@[at], i, j);
        assert(e <= t / rate) by (nonlinear_arith)
            requires
                e * rate <= t,
                rate > 0real,
        ;
        assert(segments@[at].speaker_id == voice);
    }

    /// Whatever falls on a frame of the recording, the recording has that frame.
    pub proof fn law_every_frame_that_is_heard_is_there(
        self,
        config: DiarizationConfig<T, A>,
        total: int,
        answers: Seq<Answer<A>>,
        k: int,
        f: int,
    )
        requires
            0 <= k < answers.len(),
            0 <= f < answers[k]->Ok_0.frames,
        ensures
            self.places(config, answers, k)[f] < self.averaged_cells(config, total, answers).len(),
    {
        self.lemma_heard_frames_are_there(config, total, answers, answers.len() as int, k, f);
    }

    proof fn lemma_heard_frames_are_there(
        self,
        config: DiarizationConfig<T, A>,
        total: int,
        answers: Seq<Answer<A>>,
        n: int,
        k: int,
        f: int,
    )
        requires
            0 <= k < n <= answers.len(),
            0 <= f < answers[k]->Ok_0.frames,
        ensures
            self.places(config, answers, k)[f] < self.cells_after(config, total, answers, n).len(),
        decreases n,
    {
        let before = self.cells_after(config, total, answers, n - 1);
        let rows = activity::rows_of(self.exponentials(answers[n - 1]->Ok_0));
        let places = self.places(config, answers, n - 1);
        let count = answers[n - 1]->Ok_0.frames as int;
        activity::lemma_after_rows_grows(
            before,
            rows,
            places,
            self.rules.zero,
            self.rules.one,
            count,
        );
        if k < n - 1 {
            self.lemma_heard_frames_are_there(config, total, answers, n - 1, k, f);
        } else {
            lemma_rows_have_room(
                before,
                rows,
                places,
                self.rules.zero,
                self.rules.one,
                count,
                f,
            );
        }
    }

    /// What segmenting a recording comes to is what the answers of the model come to, one
    /// for each window; see `law_found_speech_was_heard` and `law_no_speech_is_missed`.
    /// The first answer that is not accepted ends it: a failure of the model is passed
    /// on, and scores of fewer than seven classes are refused.
    pub proof fn law_segmenting_goes_by_the_answers(
        self,
        samples: &[A],
        config: &DiarizationConfig<T, A>,
        made: Result<Vec<DiarizationSegment<T>>, DiarizationError>,
    )
        requires
            call_ensures(Self::segment, (&self, samples, config), made),
        ensures
            samples@.len() == 0 ==> (made matches Ok(segments) && segments@.len() == 0),
            exists|answers: Seq<Answer<A>>| #[trigger]
                self.may_answer(samples@, *config, answers) && self.concludes(
                    *config,
                    samples@.len() as int,
                    answers,
                    made,
                ) && (samples@.len() > 0 && self.window(*config) <= isize::MAX ==> match made {
                    Ok(segments) => forall|k: int|
                        0 <= k < answers.len() ==> (#[trigger] answers[k]) is Ok
                            && answers[k]->Ok_0.classes >= 7,
                    Err(error) => answers.len() > 0 && match answers.last() {
                        Err(failure) => error == failure,
                        Ok(scores) => scores.classes < 7 && error == DiarizationError::Shape(
                            ShapeFault::IncompatibleShape,
                        ),
                    },
                }),
    {
        let answers = choose|answers: Seq<Answer<A>>| #[trigger]
            self.may_answer(samples@, *config, answers) && self.concludes(
                *config,
                samples@.len() as int,
                answers,
                made,
            );
        if samples@.len() > 0 && self.window(*config) <= isize::MAX {
            if made is Ok {
                assert forall|k: int| 0 <= k < answers.len() implies (#[trigger] answers[k]) is Ok
                    && answers[k]->Ok_0.classes >= 7 by {
                    if k < answers.len() - 1 {
                        assert(segmentation::accepted(answers[k]));
                    } else {
                        assert(answers[k] == answers.last());
                    }
                }
            }
        }
        assert(self.may_answer(samples@, *config, answers));
    }

    /// The segments found come in order of their starts, and of those that start together
    /// the voice with the lower number comes first; no voice has two that start together.
    pub proof fn law_found_speech_comes_in_order(
        self,
        of: spec_fn(T) -> real,
        samples: Seq<A>,
        config: DiarizationConfig<T, A>,
        answers: Seq<Answer<A>>,
        segments: Vec<DiarizationSegment<T>>,
        s: int,
        t: int,
    )
        requires
            self.fits(samples, config),
            self.may_answer(samples, config, answers),
            self.concludes(config, samples.len() as int, answers, Ok(segments)),
            0 < samples.len(),
            answers[0]->Ok_0.frames > 0,
            self.keeps_time(of),
            of(config.segmentation_window_secs) > 0real,
            self.averaged_cells(config, samples.len() as int, answers).len() <= usize::MAX,
            0 <= s < t < segments@.len(),
        ensures
            of(segments@[s].start) < of(segments@[t].start) || (of(segments@[s].start) == of(
                segments@[t].start,
            ) && segments@[s].speaker_id < segments@[t].speaker_id),
    {
        let total = samples.len() as int;
        let cells = self.averaged_cells(config, total, answers);
        let first = answers[0]->Ok_0.frames;
        let frame_secs = self.frame_secs(config, first);
        let times = self.times(frame_secs, cells.len());
        let heard = self.heard_segments(config, total, answers);
        self.lemma_heard_line_up(samples, config, answers, segments);
        order::law_sorting_puts_in_order(heard);
        let from = choose|from: Seq<int>| order::ordered_by(heard, segments@, from);
        assert(order::goes_before(heard, from[s], from[t]));
        let window = of(config.segmentation_window_secs);
        assert(of(frame_secs) * (first as real) == window);
        let frame = of(frame_secs);
        assert(frame > 0real) by (nonlinear_arith)
            requires
                frame * (first as real) == window,
                first as real > 0real,
                window > 0real,
        ;
        assert forall|i: int, j: int| 0 <= i < j < times.len() implies #[trigger] of(times[i])
            < #[trigger] of(times[j]) by {
            let (x, y) = (i as real, j as real);
            assert(x * frame < y * frame) by (nonlinear_arith)
                requires
                    x < y,
                    frame > 0real,
            ;
            assert(times[i] == self.clock.number(i).mul_spec(frame_secs));
            assert(times[j] == self.clock.number(j).mul_spec(frame_secs));
        }
        speech::lemma_segments_by_voice(
            of,
            cells,
            self.rules.threshold,
            self.max_gap(frame_secs),
            self.min_len(frame_secs),
            times,
            self.duration(config, total),
            3,
        );
    }

    /// What is found was heard: every segment is made of frames in which its voice is
    /// likely enough on average, or that lie in a short gap between such frames, and it
    /// leaves no such frame next to them out.
    pub proof fn law_found_speech_was_heard(
        self,
        of: spec_fn(T) -> real,
        chances: spec_fn(A) -> real,
        samples: Seq<A>,
        config: DiarizationConfig<T, A>,
        answers: Seq<Answer<A>>,
        segments: Vec<DiarizationSegment<T>>,
        s: int,
    )
        requires
            self.fits(samples, config),
            self.may_answer(samples, config, answers),
            self.concludes(config, samples.len() as int, answers, Ok(segments)),
            0 < samples.len() <= usize::MAX,
            config.sample_rate > 0,
            answers[0]->Ok_0.frames > 0,
            self.keeps_time(of),
            exact::compares(chances),
            self.averaged_cells(config, samples.len() as int, answers).len() <= usize::MAX,
            0 <= s < segments@.len(),
        ensures
            exists|i: int, j: int| #[trigger]
                self.is_made_of(of, chances, samples, config, answers, segments@[s], i, j),
    {
        let total = samples.len() as int;
        let cells = self.averaged_cells(config, total, answers);
        let first = answers[0]->Ok_0.frames;
        let frame_secs = self.frame_secs(config, first);
        let gap = self.max_gap(frame_secs);
        let times = self.times(frame_secs, cells.len());
        let duration = self.duration(config, total);
        let segment = segments@[s];
        let voice = segment.speaker_id as int;
        self.law_segments_are_sound(samples, config, answers, segments);
        assert(self.is_sound(config, total, answers, segment));
        let active = activity::loud(cells, voice, self.rules.threshold);
        let frames = speech::bridged(active, gap);
        let (i, j) = choose|i: int, j: int| #[trigger]
            speech::comes_of(
                segment,
                frames,
                self.min_len(frame_secs),
                times,
                duration,
                i,
                j,
            );
        self.law_times_are_seconds(config, of, total as usize, first, i as usize, cells.len());
        self.law_times_are_seconds(config, of, total as usize, first, j as usize, cells.len());
        let window = of(config.segmentation_window_secs);
        let frame = window / (first as real);
        let rate = config.sample_rate as real;
        let length = total as real / rate;
        assert(of(frame_secs) == frame) by (nonlinear_arith)
            requires
                of(frame_secs) * (first as real) == window,
                frame == window / (first as real),
                first as real > 0real,
        ;
        assert(of(duration) == length) by (nonlinear_arith)
            requires
                of(duration) * rate == total as real,
                length == total as real / rate,
                rate > 0real,
        ;
        assert forall|p: int| 0 <= p < cells.len() implies #[trigger] frames[p] == self.is_backed(
            chances,
            config,
            total,
            answers,
            gap,
            p,
            voice,
        ) by {
            self.lemma_backed_is_active(chances, config, total, answers, gap, p, voice);
        }
        assert forall|p: int| i <= p < j implies #[trigger] self.is_backed(
            chances,
            config,
            total,
            answers,
            gap,
            p,
            voice,
        ) by {
            assert(frames[p]);
        }
        assert(i > 0 ==> !frames[i - 1]);
        assert(j < cells.len() ==> !frames[j]);
        assert(self.is_made_of(of, chances, samples, config, answers, segment, i, j));
    }

    /// Window `k` shows the model the recording from `k` hops on, sample by sample, and
    /// nothing where the recording has ended; there are as many windows as start in it.
    pub proof fn law_windows_show_the_recording(
        self,
        samples: Seq<A>,
        config: DiarizationConfig<T, A>,
        answers: Seq<Answer<A>>,
        k: int,
    )
        requires
            self.may_answer(samples, config, answers),
            0 <= k < answers.len(),
            self.hop(config) > 0,
        ensures
            k * self.hop(config) < samples.len(),
            exists|asked: Tensor<A>|
                {
                    let start = k * self.hop(config);
                    &&& #[trigger] self.model.ensures((&asked,), answers[k])
                    &&& asked.batch == 1
                    &&& asked.rows == 1
                    &&& asked.cols == self.window(config)
                    &&& asked.data@.len() == self.window(config)
                    &&& forall|i: int|
                        0 <= i < asked.data@.len() ==> #[trigger] asked.data@[i] == (if start + i
                            < samples.len() {
                            samples[start + i]
                        } else {
                            self.rules.zero
                        })
                },
    {
        assert(self.answers_window(samples, config, k, answers[k]));
        let hop = self.hop(config) as int;
        let total = samples.len() as int;
        let n = self.windows(config, total);
        assert(k + 1 <= n);
        lemma_last_window_starts_in_time(total, hop, k);
    }

    /// All windows that start in the recording are asked for, if none is refused.
    pub proof fn law_no_window_is_left_out(
        self,
        samples: Seq<A>,
        config: DiarizationConfig<T, A>,
        answers: Seq<Answer<A>>,
        segments: Vec<DiarizationSegment<T>>,
    )
        requires
            self.hop(config) > 0,
            self.may_answer(samples, config, answers),
            self.concludes(config, samples.len() as int, answers, Ok(segments)),
            samples.len() > 0,
        ensures
            answers.len() * self.hop(config) >= samples.len(),
            (answers.len() - 1) * self.hop(config) < samples.len(),
    {
        let hop = self.hop(config) as int;
        let total = samples.len() as int;
        let n = self.windows(config, total);
        vstd::arithmetic::div_mod::lemma_fundamental_div_mod(total + hop - 1, hop);
        assert(n * hop >= total && (n - 1) * hop < total) by (nonlinear_arith)
            requires
                n == (total + hop - 1) / hop,
                total + hop - 1 == hop * ((total + hop - 1) / hop) + (total + hop - 1) % hop,
                0 <= (total + hop - 1) % hop < hop,
                hop > 0,
        ;
    }
}

/// Once a row has been added to a frame, the frame is there.
proof fn lemma_rows_have_room<A: PartialOrd + Add<Output = A> + Div<Output = A>>(
    cells: Seq<FrameActivity<A>>,
    rows: Seq<Seq<A>>,
    places: Seq<usize>,
    zero: A,
    one: A,
    n: int,
    f: int,
)
    requires
        0 <= f < n,
    ensures
        places[f] < activity::after_rows(cells, rows, places, zero, one, n).len(),
    decreases n,
{
    if f < n - 1 {
        lemma_rows_have_room(cells, rows, places, zero, one, n - 1, f);
    }
}

/// The last frame that starts before a time, if frames start often enough.
proof fn lemma_frame_before(time: real, frame: real, n: int) -> (p: int)
    requires
        n > 0,
        frame > 0real,
        0real < time <= n as real * frame,
    ensures
        0 <= p < n,
        p as real * frame < time <= (p + 1) as real * frame,
    decreases n,
{
    if (n - 1) as real * frame < time {
        n - 1
    } else {
        if n == 1 {
            assert(0real * frame == 0real) by (nonlinear_arith);
        }
        lemma_frame_before(time, frame, n - 1)
    }
}

proof fn lemma_last_window_starts_in_time(total: int, hop: int, k: int)
    requires
        hop > 0,
        0 <= k < (total + hop - 1) / hop,
    ensures
        k * hop < total,
{
    vstd::arithmetic::div_mod::lemma_fundamental_div_mod(total + hop - 1, hop);
    let n = (total + hop - 1) / hop;
    assert(k * hop < total) by (nonlinear_arith)
        requires
            0 <= k <= n - 1,
            total + hop - 1 == hop * n + (total + hop - 1) % hop,
            0 <= (total + hop - 1) % hop < hop,
            hop > 0,
    ;
}

proof fn lemma_quotient_in_range(x: real, over: real, under: real, most: real)
    by (nonlinear_arith)
    requires
        x * under == over,
        under > 0real,
        0real <= over < most * under,
    ensures
        0real <= x < most,
{
}

proof fn lemma_nearest_count(x: real, over: real, under: real, n: real)
    by (nonlinear_arith)
    requires
        x * under == over,
        under > 0real,
        2real * n - 1real <= 2real * x <= 2real * n + 1real,
    ensures
        2real * (over - n * under) <= under,
        2real * (n * under - over) <= under,
{
}

/// The largest of some scores is one of them.
proof fn lemma_peak_is_a_score<A: PartialOrd>(
    of: spec_fn(A) -> real,
    row: Seq<A>,
    lowest: A,
    n: int,
) -> (top: int)
    requires
        exact::compares(of),
        n > 0,
        forall|d: int| 0 <= d < n ==> of(lowest) <= of(#[trigger] row[d]),
    ensures
        0 <= top < n,
        of(activity::peak(row, lowest, n)) == of(row[top]),
        forall|d: int| 0 <= d < n ==> of(#[trigger] row[d]) <= of(row[top]),
    decreases n,
{
    if n == 1 {
        reveal_with_fuel(activity::peak, 2);
        0
    } else {
        let before = lemma_peak_is_a_score(of, row, lowest, n - 1);
        if scalar::gt(row[n - 1], activity::peak(row, lowest, n - 1)) {
            n - 1
        } else {
            before
        }
    }
}

} // verus!
