//! How likely each of three voices is heard in each frame.
//!
//! The segmentation model looks at one window of the recording at a time and
//! scores, for each frame, seven classes: nobody, one of three voices, or two of
//! them. Overlapping windows score the same frame more than once.

use crate::scalar;
use crate::types::{DiarizationError, ShapeFault};
use core::ops::{Add, Div, Sub};
use vstd::prelude::*;
#[allow(unused_imports)]
use vstd::std_specs::ops::{AddSpec, DivSpec, SubSpec};

verus! {

/// How many classes are scored.
pub const CLASSES: usize = 7;

/// How many voices the classes tell apart.
pub const VOICES: usize = 3;

/// The voices heard in a class: none, one, or two.
pub open spec fn members(class: int) -> Set<int> {
    if class == 1 {
        set![0int]
    } else if class == 2 {
        set![1int]
    } else if class == 3 {
        set![2int]
    } else if class == 4 {
        set![0int, 1int]
    } else if class == 5 {
        set![0int, 2int]
    } else if class == 6 {
        set![1int, 2int]
    } else {
        Set::empty()
    }
}

/// The classes in which a voice is heard, in ascending order.
pub open spec fn classes_of(voice: int) -> (int, int, int) {
    if voice == 0 {
        (1, 4, 5)
    } else if voice == 1 {
        (2, 4, 6)
    } else {
        (3, 5, 6)
    }
}

/// `classes_of` lists a class for a voice exactly when the voice is a member of
/// the class, and no two classes have the same members.
pub proof fn law_classes_are_sets_of_voices(class: int, other: int, voice: int)
    requires
        0 <= class < CLASSES,
        0 <= other < CLASSES,
        0 <= voice < VOICES,
    ensures
        members(class).contains(voice) <==> (class == classes_of(voice).0 || class == classes_of(
            voice,
        ).1 || class == classes_of(voice).2),
        members(class) == members(other) ==> class == other,
{
    assert(members(class).contains(0) == (class == 1 || class == 4 || class == 5));
    assert(members(class).contains(1) == (class == 2 || class == 4 || class == 6));
    assert(members(class).contains(2) == (class == 3 || class == 5 || class == 6));
    assert(members(other).contains(0) == (other == 1 || other == 4 || other == 5));
    assert(members(other).contains(1) == (other == 2 || other == 4 || other == 6));
    assert(members(other).contains(2) == (other == 3 || other == 5 || other == 6));
}

/// The scores of one window: one row of at least seven numbers for each frame.
pub struct Logits<T> {
    pub data: Vec<T>,
    pub frames: usize,
    pub classes: usize,
}

impl<T> Logits<T> {
    /// The rows are complete and wide enough.
    pub open spec fn valid(&self) -> bool {
        &&& self.data@.len() == self.frames * self.classes
        &&& self.classes >= CLASSES
    }

    /// The scores of the seven classes in a frame.
    pub open spec fn row(&self, frame: int) -> Seq<T> {
        Seq::new(CLASSES as nat, |class: int| self.data@[frame * self.classes + class])
    }

    /// Takes the scores of a window, frame after frame; a model that scores
    /// fewer than seven classes is refused.
    pub fn new(data: Vec<T>, frames: usize, classes: usize) -> (made: Result<
        Self,
        DiarizationError,
    >)
        requires
            classes >= CLASSES ==> data@.len() == frames * classes,
        ensures
            made is Err <==> classes < CLASSES,
            made matches Err(e) ==> e == DiarizationError::Shape(ShapeFault::IncompatibleShape),
            made matches Ok(logits) ==> logits.valid() && logits.data == data && logits.frames
                == frames && logits.classes == classes,
    {
        if classes < CLASSES {
            Err(DiarizationError::Shape(ShapeFault::IncompatibleShape))
        } else {
            Ok(Logits { data, frames, classes })
        }
    }
}

/// The largest of the first `n` scores that exceeds `lowest`, or `lowest`.
pub open spec fn peak<T: PartialOrd>(row: Seq<T>, lowest: T, n: int) -> T
    decreases n,
{
    if n <= 0 {
        lowest
    } else {
        let sofar = peak(row, lowest, n - 1);
        if scalar::gt(row[n - 1], sofar) {
            row[n - 1]
        } else {
            sofar
        }
    }
}

/// A row of scores, each lessened by the largest of them.
pub open spec fn lowered<T: PartialOrd + Sub<Output = T>>(row: Seq<T>, lowest: T) -> Seq<T> {
    Seq::new(CLASSES as nat, |class: int| row[class].sub_spec(peak(row, lowest, CLASSES as int)))
}

/// Lessens each score by the largest in its frame, where `lowest` is a number
/// that no score is below. The result holds seven numbers for each frame.
pub fn lower_by_peak<T: Copy + PartialOrd + Sub<Output = T>>(
    logits: &Logits<T>,
    lowest: T,
) -> (shifted: Vec<T>)
    requires
        logits.valid(),
        scalar::ordered::<T>(),
        T::obeys_sub_spec(),
        forall|frame: int, class: int|
            0 <= frame < logits.frames && 0 <= class < CLASSES ==> (
            #[trigger] logits.row(frame)[class]).sub_req(
                peak(logits.row(frame), lowest, CLASSES as int),
            ),
    ensures
        shifted@.len() == logits.frames * CLASSES,
        forall|frame: int, class: int|
            0 <= frame < logits.frames && 0 <= class < CLASSES ==> #[trigger] shifted@[frame * CLASSES
                + class] == lowered(logits.row(frame), lowest)[class],
{
    let mut shifted: Vec<T> = Vec::new();
    let mut frame: usize = 0;
    while frame < logits.frames
        invariant
            frame <= logits.frames,
            logits.valid(),
            scalar::ordered::<T>(),
            T::obeys_sub_spec(),
            forall|frame: int, class: int|
                0 <= frame < logits.frames && 0 <= class < CLASSES ==> (
                #[trigger] logits.row(frame)[class]).sub_req(
                    peak(logits.row(frame), lowest, CLASSES as int),
                ),
            shifted@.len() == frame * CLASSES,
            forall|f: int, class: int|
                0 <= f < frame && 0 <= class < CLASSES ==> #[trigger] shifted@[f * CLASSES + class]
                    == lowered(logits.row(f), lowest)[class],
        decreases logits.frames - frame,
    {
        let ghost row = logits.row(frame as int);
        let base: usize = row_base(logits, frame);
        let mut highest: T = lowest;
        let mut class: usize = 0;
        while class < CLASSES
            invariant
                class <= CLASSES,
                frame < logits.frames,
                logits.valid(),
                scalar::ordered::<T>(),
                row == logits.row(frame as int),
                base == frame * logits.classes,
                base + CLASSES <= logits.data.len(),
                highest == peak(row, lowest, class as int),
            decreases CLASSES - class,
        {
            let score: T = logits.data[base + class];
            if score > highest {
                highest = score;
            }
            class = class + 1;
        }
        let ghost earlier = shifted@;
        class = 0;
        while class < CLASSES
            invariant
                class <= CLASSES,
                frame < logits.frames,
                logits.valid(),
                T::obeys_sub_spec(),
                forall|frame: int, class: int|
                    0 <= frame < logits.frames && 0 <= class < CLASSES ==> (
                    #[trigger] logits.row(frame)[class]).sub_req(
                        peak(logits.row(frame), lowest, CLASSES as int),
                    ),
                row == logits.row(frame as int),
                base == frame * logits.classes,
                base + CLASSES <= logits.data.len(),
                highest == peak(row, lowest, CLASSES as int),
                earlier.len() == frame * CLASSES,
                shifted@ == earlier + lowered(row, lowest).take(class as int),
            decreases CLASSES - class,
        {
            assert(row[class as int] == logits.row(frame as int)[class as int]);
            let value: T = logits.data[base + class] - highest;
            shifted.push(value);
            proof {
                assert(shifted@ =~= earlier + lowered(row, lowest).take(class + 1));
            }
            class = class + 1;
        }
        proof {
            assert forall|f: int, c: int|
                0 <= f < frame + 1 && 0 <= c < CLASSES implies #[trigger] shifted@[f * CLASSES + c]
                == lowered(logits.row(f), lowest)[c] by {
                if f < frame {
                    assert(f * CLASSES + c < frame * CLASSES) by (nonlinear_arith)
                        requires
                            f < frame,
                            c < CLASSES,
                            CLASSES == 7,
                    ;
                    assert(earlier[f * CLASSES + c] == lowered(logits.row(f), lowest)[c]);
                } else {
                    assert(f * CLASSES + c == earlier.len() + c);
                }
            }
        }
        frame = frame + 1;
    }
    shifted
}

fn row_base<T>(logits: &Logits<T>, frame: usize) -> (base: usize)
    requires
        logits.valid(),
        frame < logits.frames,
    ensures
        base == frame * logits.classes,
        base + CLASSES <= logits.data.len(),
{
    proof {
        assert(frame * logits.classes + logits.classes <= logits.frames * logits.classes)
            by (nonlinear_arith)
            requires
                frame < logits.frames,
        ;
        assert(frame * logits.classes >= 0) by (nonlinear_arith);
        assert(logits.frames * logits.classes == logits.data.len());
    }
    frame * logits.classes
}

/// `zero` and the first `n` numbers of a row, added from left to right.
pub open spec fn total<T: Add<Output = T>>(row: Seq<T>, zero: T, n: int) -> T
    decreases n,
{
    if n <= 0 {
        zero
    } else {
        total(row, zero, n - 1).add_spec(row[n - 1])
    }
}

/// The share of a class in its row; a row that does not add up to more than
/// `zero` is left as it is.
pub open spec fn share<T: PartialOrd + Add<Output = T> + Div<Output = T>>(
    row: Seq<T>,
    zero: T,
    class: int,
) -> T {
    let whole = total(row, zero, CLASSES as int);
    if scalar::gt(whole, zero) {
        row[class].div_spec(whole)
    } else {
        row[class]
    }
}

/// How likely a voice is heard: the shares of its classes, added up.
pub open spec fn likelihood<T: PartialOrd + Add<Output = T> + Div<Output = T>>(
    row: Seq<T>,
    zero: T,
    voice: int,
) -> T {
    let (first, second, third) = classes_of(voice);
    share(row, zero, first).add_spec(share(row, zero, second)).add_spec(share(row, zero, third))
}

/// The arithmetic behind `likelihood` stays within `T`.
pub open spec fn likelihood_fits<T: PartialOrd + Add<Output = T> + Div<Output = T>>(
    row: Seq<T>,
    zero: T,
) -> bool {
    &&& forall|n: int| 0 <= n < CLASSES ==> (#[trigger] total(row, zero, n)).add_req(row[n])
    &&& scalar::gt(total(row, zero, CLASSES as int), zero) ==> forall|class: int|
        0 <= class < CLASSES ==> (#[trigger] row[class]).div_req(total(row, zero, CLASSES as int))
    &&& forall|voice: int|
        0 <= voice < VOICES ==> {
            let (first, second, third) = #[trigger] classes_of(voice);
            &&& share(row, zero, first).add_req(share(row, zero, second))
            &&& share(row, zero, first).add_spec(share(row, zero, second)).add_req(
                share(row, zero, third),
            )
        }
}

/// What the windows say of one frame of the recording.
#[derive(Debug)]
pub struct FrameActivity<T> {
    /// One number for each voice.
    pub voices: (T, T, T),
    /// How many times the frame was scored.
    pub weight: T,
}

impl<T: Copy> Copy for FrameActivity<T> {

}

impl<T: Copy> Clone for FrameActivity<T> {
    fn clone(&self) -> (copy: Self)
        ensures
            copy == *self,
    {
        *self
    }
}

impl<T> FrameActivity<T> {
    /// The number of one voice.
    pub open spec fn voice(self, voice: int) -> T {
        if voice == 0 {
            self.voices.0
        } else if voice == 1 {
            self.voices.1
        } else {
            self.voices.2
        }
    }

    /// A frame that no window has scored.
    pub open spec fn silent(zero: T) -> Self {
        FrameActivity { voices: (zero, zero, zero), weight: zero }
    }
}

/// A frame after one more window has scored it.
pub open spec fn heard<T: PartialOrd + Add<Output = T> + Div<Output = T>>(
    cell: FrameActivity<T>,
    row: Seq<T>,
    zero: T,
    one: T,
) -> FrameActivity<T> {
    FrameActivity {
        voices: (
            cell.voices.0.add_spec(likelihood(row, zero, 0)),
            cell.voices.1.add_spec(likelihood(row, zero, 1)),
            cell.voices.2.add_spec(likelihood(row, zero, 2)),
        ),
        weight: cell.weight.add_spec(one),
    }
}

/// The arithmetic behind `heard` stays within `T`.
pub open spec fn heard_fits<T: PartialOrd + Add<Output = T> + Div<Output = T>>(
    cell: FrameActivity<T>,
    row: Seq<T>,
    zero: T,
    one: T,
) -> bool {
    &&& likelihood_fits(row, zero)
    &&& cell.voices.0.add_req(likelihood(row, zero, 0))
    &&& cell.voices.1.add_req(likelihood(row, zero, 1))
    &&& cell.voices.2.add_req(likelihood(row, zero, 2))
    &&& cell.weight.add_req(one)
}

/// These frames, with silent ones added at the end so that frame `at` exists.
pub open spec fn reaching<T>(cells: Seq<FrameActivity<T>>, at: int, zero: T) -> Seq<
    FrameActivity<T>,
> {
    if at < cells.len() {
        cells
    } else {
        cells + Seq::new((at + 1 - cells.len()) as nat, |i: int| FrameActivity::silent(zero))
    }
}

/// The frames after the first `n` rows of a window have been added, row `k` to
/// frame `positions[k]`.
pub open spec fn after_rows<T: PartialOrd + Add<Output = T> + Div<Output = T>>(
    cells: Seq<FrameActivity<T>>,
    rows: Seq<Seq<T>>,
    positions: Seq<usize>,
    zero: T,
    one: T,
    n: int,
) -> Seq<FrameActivity<T>>
    decreases n,
{
    if n <= 0 {
        cells
    } else {
        let sofar = after_rows(cells, rows, positions, zero, one, n - 1);
        let at = positions[n - 1] as int;
        let room = reaching(sofar, at, zero);
        room.update(at, heard(room[at], rows[n - 1], zero, one))
    }
}

/// Row `n` can be added once the rows before it have been.
pub open spec fn row_fits<T: PartialOrd + Add<Output = T> + Div<Output = T>>(
    cells: Seq<FrameActivity<T>>,
    rows: Seq<Seq<T>>,
    positions: Seq<usize>,
    zero: T,
    one: T,
    n: int,
) -> bool {
    let sofar = after_rows(cells, rows, positions, zero, one, n);
    let at = positions[n] as int;
    heard_fits(reaching(sofar, at, zero)[at], rows[n], zero, one)
}

/// The rows of seven that a list of numbers holds.
pub open spec fn rows_of<T>(numbers: Seq<T>) -> Seq<Seq<T>> {
    Seq::new(
        numbers.len() / CLASSES as nat,
        |frame: int| numbers.subrange(frame * CLASSES, frame * CLASSES + CLASSES),
    )
}

/// What all windows say of every frame of the recording.
pub struct ActivityGrid<T> {
    pub cells: Vec<FrameActivity<T>>,
}

fn exec_share<T: Copy + PartialOrd + Add<Output = T> + Div<Output = T>>(
    row: &[T],
    whole: T,
    zero: T,
    class: usize,
) -> (part: T)
    requires
        scalar::ordered::<T>(),
        T::obeys_add_spec(),
        T::obeys_div_spec(),
        row@.len() == CLASSES,
        class < CLASSES,
        whole == total(row@, zero, CLASSES as int),
        scalar::gt(whole, zero) ==> row@[class as int].div_req(whole),
    ensures
        part == share(row@, zero, class as int),
{
    if whole > zero {
        row[class] / whole
    } else {
        row[class]
    }
}

/// How likely each voice is heard, from one row of seven exponentials.
pub fn voice_likelihoods<T: Copy + PartialOrd + Add<Output = T> + Div<Output = T>>(
    row: &[T],
    zero: T,
) -> (voices: (T, T, T))
    requires
        scalar::ordered::<T>(),
        T::obeys_add_spec(),
        T::obeys_div_spec(),
        row@.len() == CLASSES,
        likelihood_fits(row@, zero),
    ensures
        voices.0 == likelihood(row@, zero, 0),
        voices.1 == likelihood(row@, zero, 1),
        voices.2 == likelihood(row@, zero, 2),
{
    let mut whole: T = zero;
    let mut class: usize = 0;
    while class < CLASSES
        invariant
            class <= CLASSES,
            row@.len() == CLASSES,
            T::obeys_add_spec(),
            likelihood_fits(row@, zero),
            whole == total(row@, zero, class as int),
        decreases CLASSES - class,
    {
        whole = whole + row[class];
        class = class + 1;
    }
    proof {
        assert(classes_of(0) == (1int, 4int, 5int));
        assert(classes_of(1) == (2int, 4int, 6int));
        assert(classes_of(2) == (3int, 5int, 6int));
    }
    let p1: T = exec_share(row, whole, zero, 1);
    let p2: T = exec_share(row, whole, zero, 2);
    let p3: T = exec_share(row, whole, zero, 3);
    let p4: T = exec_share(row, whole, zero, 4);
    let p5: T = exec_share(row, whole, zero, 5);
    let p6: T = exec_share(row, whole, zero, 6);
    (p1 + p4 + p5, p2 + p4 + p6, p3 + p5 + p6)
}

impl<T> ActivityGrid<T> {
    /// A grid for a recording that should need `estimate` frames, when windows
    /// have `window_frames` frames each. No frame has been scored.
    pub fn with_room(estimate: usize, window_frames: usize, zero: T) -> (grid: Self)
        where T: Copy
        requires
            estimate + window_frames + 10 <= usize::MAX,
        ensures
            grid.cells@ == Seq::new(
                (estimate + window_frames + 10) as nat,
                |i: int| FrameActivity::silent(zero),
            ),
    {
        let size: usize = estimate + window_frames + 10;
        let mut cells: Vec<FrameActivity<T>> = Vec::new();
        let mut i: usize = 0;
        while i < size
            invariant
                i <= size,
                cells@ == Seq::new(i as nat, |k: int| FrameActivity::silent(zero)),
            decreases size - i,
        {
            cells.push(FrameActivity { voices: (zero, zero, zero), weight: zero });
            i = i + 1;
            proof {
                assert(cells@ =~= Seq::new(i as nat, |k: int| FrameActivity::silent(zero)));
            }
        }
        ActivityGrid { cells }
    }

    /// Adds what one window says: the seven exponentials of its row `k` go to
    /// frame `positions[k]`. Frames that the grid lacks are added.
    pub fn add_window(&mut self, exponentials: &Vec<T>, positions: &Vec<usize>, zero: T, one: T)
        where T: Copy + PartialOrd + Add<Output = T> + Div<Output = T>
        requires
            scalar::ordered::<T>(),
            T::obeys_add_spec(),
            T::obeys_div_spec(),
            exponentials@.len() == positions@.len() * CLASSES,
            forall|k: int| 0 <= k < positions@.len() ==> #[trigger] positions@[k] < usize::MAX,
            forall|k: int|
                0 <= k < positions@.len() ==> #[trigger] row_fits(
                    old(self).cells@,
                    rows_of(exponentials@),
                    positions@,
                    zero,
                    one,
                    k,
                ),
        ensures
            final(self).cells@ == after_rows(
                old(self).cells@,
                rows_of(exponentials@),
                positions@,
                zero,
                one,
                positions@.len() as int,
            ),
    {
        let ghost before = self.cells@;
        let ghost rows = rows_of(exponentials@);
        let mut frame: usize = 0;
        while frame < positions.len()
            invariant
                frame <= positions@.len(),
                scalar::ordered::<T>(),
                T::obeys_add_spec(),
                T::obeys_div_spec(),
                exponentials@.len() == positions@.len() * CLASSES,
                rows == rows_of(exponentials@),
                forall|k: int| 0 <= k < positions@.len() ==> #[trigger] positions@[k] < usize::MAX,
                forall|k: int|
                    0 <= k < positions@.len() ==> #[trigger] row_fits(
                        before,
                        rows,
                        positions@,
                        zero,
                        one,
                        k,
                    ),
                self.cells@ == after_rows(before, rows, positions@, zero, one, frame as int),
            decreases positions@.len() - frame,
        {
            let at: usize = positions[frame];
            proof {
                assert(exponentials@.len() == exponentials.len());
                assert(frame * 7 + 7 <= positions@.len() * 7);
                assert(row_fits(before, rows, positions@, zero, one, frame as int));
            }
            let base: usize = frame * CLASSES;
            let (lower, _upper) = exponentials.as_slice().split_at(base + CLASSES);
            let (_lower, row) = lower.split_at(base);
            proof {
                assert(row@ =~= rows[frame as int]);
            }
            let ghost sofar = self.cells@;
            while self.cells.len() <= at
                invariant
                    at < usize::MAX,
                    sofar.len() <= self.cells@.len(),
                    self.cells@.len() <= at + 1 || self.cells@ == sofar,
                    self.cells@ == sofar + Seq::new(
                        (self.cells@.len() - sofar.len()) as nat,
                        |i: int| FrameActivity::silent(zero),
                    ),
                decreases at + 1 - self.cells@.len(),
            {
                self.cells.push(FrameActivity { voices: (zero, zero, zero), weight: zero });
                proof {
                    assert(self.cells@ =~= sofar + Seq::new(
                        (self.cells@.len() - sofar.len()) as nat,
                        |i: int| FrameActivity::silent(zero),
                    ));
                }
            }
            proof {
                assert(self.cells@ =~= reaching(sofar, at as int, zero));
            }
            let (a, b, c) = voice_likelihoods(row, zero);
            let cell: FrameActivity<T> = self.cells[at];
            let updated: FrameActivity<T> = FrameActivity {
                voices: (cell.voices.0 + a, cell.voices.1 + b, cell.voices.2 + c),
                weight: cell.weight + one,
            };
            self.cells.set(at, updated);
            frame = frame + 1;
        }
    }
}

/// A frame with its numbers divided by how many times it was scored.
pub open spec fn averaged<T: PartialOrd + Div<Output = T>>(
    cell: FrameActivity<T>,
    zero: T,
) -> FrameActivity<T> {
    if scalar::gt(cell.weight, zero) {
        FrameActivity {
            voices: (
                cell.voices.0.div_spec(cell.weight),
                cell.voices.1.div_spec(cell.weight),
                cell.voices.2.div_spec(cell.weight),
            ),
            weight: cell.weight,
        }
    } else {
        cell
    }
}

/// The frames in which a voice is at least as likely as `threshold`.
pub open spec fn loud<T: PartialOrd>(
    cells: Seq<FrameActivity<T>>,
    voice: int,
    threshold: T,
) -> Seq<bool> {
    Seq::new(cells.len(), |i: int| scalar::ge(cells[i].voice(voice), threshold))
}

impl<T> ActivityGrid<T> {
    /// Divides the numbers of each frame by how many times it was scored; a
    /// frame that was never scored stays as it is.
    pub fn average(&mut self, zero: T) where T: Copy + PartialOrd + Div<Output = T>
        requires
            scalar::ordered::<T>(),
            T::obeys_div_spec(),
            forall|i: int|
                0 <= i < old(self).cells@.len() && scalar::gt(
                    (#[trigger] old(self).cells@[i]).weight,
                    zero,
                ) ==> {
                    let cell = old(self).cells@[i];
                    &&& cell.voices.0.div_req(cell.weight)
                    &&& cell.voices.1.div_req(cell.weight)
                    &&& cell.voices.2.div_req(cell.weight)
                },
        ensures
            final(self).cells@ == old(self).cells@.map_values(
                |cell: FrameActivity<T>| averaged(cell, zero),
            ),
    {
        let ghost before = self.cells@;
        let mut i: usize = 0;
        while i < self.cells.len()
            invariant
                i <= self.cells@.len(),
                self.cells@.len() == before.len(),
                scalar::ordered::<T>(),
                T::obeys_div_spec(),
                forall|i: int|
                    0 <= i < before.len() && scalar::gt((#[trigger] before[i]).weight, zero) ==> {
                        let cell = before[i];
                        &&& cell.voices.0.div_req(cell.weight)
                        &&& cell.voices.1.div_req(cell.weight)
                        &&& cell.voices.2.div_req(cell.weight)
                    },
                forall|k: int|
                    0 <= k < i ==> #[trigger] self.cells@[k] == averaged(before[k], zero),
                forall|k: int| i <= k < before.len() ==> #[trigger] self.cells@[k] == before[k],
            decreases self.cells@.len() - i,
        {
            let cell: FrameActivity<T> = self.cells[i];
            proof {
                assert(cell == before[i as int]);
            }
            let weight: T = cell.weight;
            if weight > zero {
                let updated: FrameActivity<T> = FrameActivity {
                    voices: (
                        cell.voices.0 / weight,
                        cell.voices.1 / weight,
                        cell.voices.2 / weight,
                    ),
                    weight,
                };
                self.cells.set(i, updated);
            }
            i = i + 1;
        }
        proof {
            assert(self.cells@ =~= before.map_values(
                |cell: FrameActivity<T>| averaged(cell, zero),
            ));
        }
    }

    /// Tells for each frame whether a voice is at least as likely as
    /// `threshold`.
    pub fn loud_frames(&self, voice: usize, threshold: T) -> (active: Vec<bool>)
        where T: Copy + PartialOrd
        requires
            scalar::ordered::<T>(),
            voice < VOICES,
        ensures
            active@ == loud(self.cells@, voice as int, threshold),
    {
        let mut active: Vec<bool> = Vec::new();
        let mut i: usize = 0;
        while i < self.cells.len()
            invariant
                i <= self.cells@.len(),
                scalar::ordered::<T>(),
                voice < VOICES,
                active@ == loud(self.cells@, voice as int, threshold).take(i as int),
            decreases self.cells@.len() - i,
        {
            let cell: FrameActivity<T> = self.cells[i];
            let value: T = if voice == 0 {
                cell.voices.0
            } else if voice == 1 {
                cell.voices.1
            } else {
                cell.voices.2
            };
            active.push(value >= threshold);
            i = i + 1;
            proof {
                assert(active@ =~= loud(self.cells@, voice as int, threshold).take(i as int));
            }
        }
        proof {
            assert(loud(self.cells@, voice as int, threshold).take(i as int) =~= loud(
                self.cells@,
                voice as int,
                threshold,
            ));
        }
        active
    }
}

/// A window changes only the frames that its rows go to: every other frame keeps
/// its numbers, or is silent if the grid lacked it.
pub proof fn law_window_changes_its_frames_only<
    T: PartialOrd + Add<Output = T> + Div<Output = T>,
>(
    cells: Seq<FrameActivity<T>>,
    rows: Seq<Seq<T>>,
    positions: Seq<usize>,
    zero: T,
    one: T,
    n: int,
    frame: int,
)
    requires
        0 <= n <= positions.len(),
        0 <= frame < after_rows(cells, rows, positions, zero, one, n).len(),
        forall|k: int| 0 <= k < n ==> #[trigger] positions[k] != frame,
    ensures
        after_rows(cells, rows, positions, zero, one, n)[frame] == (if frame < cells.len() {
            cells[frame]
        } else {
            FrameActivity::silent(zero)
        }),
    decreases n,
{
    if n > 0 {
        let sofar = after_rows(cells, rows, positions, zero, one, n - 1);
        lemma_after_rows_grows(cells, rows, positions, zero, one, n - 1);
        if frame < sofar.len() {
            law_window_changes_its_frames_only(cells, rows, positions, zero, one, n - 1, frame);
        }
    }
}

/// How many of the first `n` rows go to a frame.
pub open spec fn times_scored(positions: Seq<usize>, frame: int, n: int) -> int
    decreases n,
{
    if n <= 0 {
        0
    } else {
        times_scored(positions, frame, n - 1) + (if positions[n - 1] == frame {
            1int
        } else {
            0
        })
    }
}

/// `base` with `one` added so many times.
pub open spec fn raised<T: Add<Output = T>>(base: T, one: T, times: int) -> T
    decreases times,
{
    if times <= 0 {
        base
    } else {
        raised(base, one, times - 1).add_spec(one)
    }
}

/// The weight of a frame grows by `one` for each row that goes to it, so that it
/// counts how many times the frame was scored.
pub proof fn law_weight_counts_scores<T: PartialOrd + Add<Output = T> + Div<Output = T>>(
    cells: Seq<FrameActivity<T>>,
    rows: Seq<Seq<T>>,
    positions: Seq<usize>,
    zero: T,
    one: T,
    n: int,
    frame: int,
)
    requires
        0 <= n <= positions.len(),
        0 <= frame < after_rows(cells, rows, positions, zero, one, n).len(),
    ensures
        after_rows(cells, rows, positions, zero, one, n)[frame].weight == raised(
            if frame < cells.len() {
                cells[frame].weight
            } else {
                zero
            },
            one,
            times_scored(positions, frame, n),
        ),
    decreases n,
{
    if n > 0 {
        let sofar = after_rows(cells, rows, positions, zero, one, n - 1);
        lemma_after_rows_grows(cells, rows, positions, zero, one, n - 1);
        if frame < sofar.len() {
            law_weight_counts_scores(cells, rows, positions, zero, one, n - 1, frame);
        } else {
            lemma_lacking_frame_is_not_scored(cells, rows, positions, zero, one, n - 1, frame);
        }
        let base = if frame < cells.len() {
            cells[frame].weight
        } else {
            zero
        };
        let times = times_scored(positions, frame, n - 1);
        lemma_times_scored(positions, frame, n - 1);
        let room = reaching(sofar, positions[n - 1] as int, zero);
        assert(room[frame].weight == raised(base, one, times));
        if positions[n - 1] == frame {
            assert(raised(base, one, times + 1) == raised(base, one, times).add_spec(one));
        }
    }
}

proof fn lemma_times_scored(positions: Seq<usize>, frame: int, n: int)
    ensures
        times_scored(positions, frame, n) >= 0,
    decreases n,
{
    if n > 0 {
        lemma_times_scored(positions, frame, n - 1);
    }
}

proof fn lemma_lacking_frame_is_not_scored<
    T: PartialOrd + Add<Output = T> + Div<Output = T>,
>(
    cells: Seq<FrameActivity<T>>,
    rows: Seq<Seq<T>>,
    positions: Seq<usize>,
    zero: T,
    one: T,
    n: int,
    frame: int,
)
    requires
        0 <= n <= positions.len(),
        after_rows(cells, rows, positions, zero, one, n).len() <= frame,
    ensures
        times_scored(positions, frame, n) == 0,
    decreases n,
{
    if n > 0 {
        lemma_lacking_frame_is_not_scored(cells, rows, positions, zero, one, n - 1, frame);
    }
}

pub proof fn lemma_after_rows_grows<T: PartialOrd + Add<Output = T> + Div<Output = T>>(
    cells: Seq<FrameActivity<T>>,
    rows: Seq<Seq<T>>,
    positions: Seq<usize>,
    zero: T,
    one: T,
    n: int,
)
    ensures
        cells.len() <= after_rows(cells, rows, positions, zero, one, n).len(),
    decreases n,
{
    if n > 0 {
        lemma_after_rows_grows(cells, rows, positions, zero, one, n - 1);
    }
}

} // verus!
