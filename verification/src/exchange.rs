//! What becomes of the segments found when two voices are exchanged.

use crate::activity;
use crate::activity::FrameActivity;
use crate::scalar;
use crate::speech;
use crate::types::DiarizationSegment;
use core::ops::{Add, Div};
use vstd::prelude::*;
#[allow(unused_imports)]
use vstd::std_specs::ops::{AddSpec, DivSpec};

verus! {

/// A voice after voices `a` and `b` have been exchanged.
pub open spec fn exchanged(voice: int, a: int, b: int) -> int {
    if voice == a {
        b
    } else if voice == b {
        a
    } else {
        voice
    }
}

/// The class of the exchanged voices of a class.
pub open spec fn exchanged_class(class: int, a: int, b: int) -> int {
    if a == b {
        class
    } else if a != 2 && b != 2 {
        if class == 1 {
            2
        } else if class == 2 {
            1
        } else if class == 5 {
            6
        } else if class == 6 {
            5
        } else {
            class
        }
    } else if a != 1 && b != 1 {
        if class == 1 {
            3
        } else if class == 3 {
            1
        } else if class == 4 {
            6
        } else if class == 6 {
            4
        } else {
            class
        }
    } else {
        if class == 2 {
            3
        } else if class == 3 {
            2
        } else if class == 4 {
            5
        } else if class == 5 {
            4
        } else {
            class
        }
    }
}

/// Both `a` and `b` are numbers of voices.
pub open spec fn are_voices(a: int, b: int) -> bool {
    0 <= a < activity::VOICES && 0 <= b < activity::VOICES
}

/// A voice is heard in a class exactly when the exchanged voice is heard in the
/// exchanged class, and exchanging twice changes nothing.
pub proof fn law_classes_follow_their_voices(class: int, voice: int, a: int, b: int)
    requires
        are_voices(a, b),
        0 <= class < activity::CLASSES,
        0 <= voice < activity::VOICES,
    ensures
        activity::members(class).contains(voice) <==> activity::members(
            exchanged_class(class, a, b),
        ).contains(exchanged(voice, a, b)),
        0 <= exchanged_class(class, a, b) < activity::CLASSES,
        exchanged_class(exchanged_class(class, a, b), a, b) == class,
        0 <= exchanged(voice, a, b) < activity::VOICES,
        exchanged(exchanged(voice, a, b), a, b) == voice,
{
    activity::law_classes_are_sets_of_voices(class, class, voice);
    activity::law_classes_are_sets_of_voices(
        exchanged_class(class, a, b),
        class,
        exchanged(voice, a, b),
    );
}

/// A row of seven numbers with the classes of the exchanged voices exchanged.
pub open spec fn exchanged_row<T>(row: Seq<T>, a: int, b: int) -> Seq<T> {
    Seq::new(activity::CLASSES as nat, |class: int| row[exchanged_class(class, a, b)])
}

/// The sums over a row come out the same when its classes are added in the order
/// that exchanging the voices gives them.
pub open spec fn adds_alike<T: PartialOrd + Add<Output = T> + Div<Output = T>>(
    row: Seq<T>,
    zero: T,
    a: int,
    b: int,
) -> bool {
    &&& activity::total(exchanged_row(row, a, b), zero, activity::CLASSES as int)
        == activity::total(row, zero, activity::CLASSES as int)
    &&& forall|voice: int|
        0 <= voice < activity::VOICES ==> {
            let (first, second, third) = #[trigger] activity::classes_of(voice);
            activity::share(row, zero, exchanged_class(first, a, b)).add_spec(
                activity::share(row, zero, exchanged_class(second, a, b)),
            ).add_spec(activity::share(row, zero, exchanged_class(third, a, b)))
                == activity::likelihood(row, zero, exchanged(voice, a, b))
        }
}

proof fn lemma_likelihood_exchanged<T: PartialOrd + Add<Output = T> + Div<Output = T>>(
    row: Seq<T>,
    zero: T,
    a: int,
    b: int,
    voice: int,
)
    requires
        are_voices(a, b),
        0 <= voice < activity::VOICES,
        adds_alike(row, zero, a, b),
    ensures
        activity::likelihood(exchanged_row(row, a, b), zero, voice) == activity::likelihood(
            row,
            zero,
            exchanged(voice, a, b),
        ),
{
    let (first, second, third) = activity::classes_of(voice);
    let other = exchanged_row(row, a, b);
    assert(activity::share(other, zero, first) == activity::share(
        row,
        zero,
        exchanged_class(first, a, b),
    ));
    assert(activity::share(other, zero, second) == activity::share(
        row,
        zero,
        exchanged_class(second, a, b),
    ));
    assert(activity::share(other, zero, third) == activity::share(
        row,
        zero,
        exchanged_class(third, a, b),
    ));
}

/// A frame with the numbers of two voices exchanged.
pub open spec fn exchanged_cell<T>(cell: FrameActivity<T>, a: int, b: int) -> FrameActivity<T> {
    FrameActivity {
        voices: (
            cell.voice(exchanged(0, a, b)),
            cell.voice(exchanged(1, a, b)),
            cell.voice(exchanged(2, a, b)),
        ),
        weight: cell.weight,
    }
}

/// Frames with the numbers of two voices exchanged.
pub open spec fn exchanged_cells<T>(
    cells: Seq<FrameActivity<T>>,
    a: int,
    b: int,
) -> Seq<FrameActivity<T>> {
    cells.map_values(|cell: FrameActivity<T>| exchanged_cell(cell, a, b))
}

/// Windows that score exchanged classes give frames with exchanged voices.
pub proof fn law_rows_exchange_the_voices_of_frames<
    T: PartialOrd + Add<Output = T> + Div<Output = T>,
>(
    cells: Seq<FrameActivity<T>>,
    rows: Seq<Seq<T>>,
    others: Seq<Seq<T>>,
    positions: Seq<usize>,
    zero: T,
    one: T,
    a: int,
    b: int,
    n: int,
)
    requires
        are_voices(a, b),
        forall|k: int|
            0 <= k < n ==> #[trigger] others[k] == exchanged_row(rows[k], a, b) && adds_alike(
                rows[k],
                zero,
                a,
                b,
            ),
    ensures
        activity::after_rows(exchanged_cells(cells, a, b), others, positions, zero, one, n)
            == exchanged_cells(
            activity::after_rows(cells, rows, positions, zero, one, n),
            a,
            b,
        ),
    decreases n,
{
    if n > 0 {
        law_rows_exchange_the_voices_of_frames(
            cells,
            rows,
            others,
            positions,
            zero,
            one,
            a,
            b,
            n - 1,
        );
        let sofar = activity::after_rows(cells, rows, positions, zero, one, n - 1);
        let at = positions[n - 1] as int;
        let room = activity::reaching(sofar, at, zero);
        let other_room = activity::reaching(exchanged_cells(sofar, a, b), at, zero);
        assert(other_room =~= exchanged_cells(room, a, b));
        assert(others[n - 1] == exchanged_row(rows[n - 1], a, b));
        lemma_likelihood_exchanged(rows[n - 1], zero, a, b, 0);
        lemma_likelihood_exchanged(rows[n - 1], zero, a, b, 1);
        lemma_likelihood_exchanged(rows[n - 1], zero, a, b, 2);
        assert(activity::heard(other_room[at], others[n - 1], zero, one) == exchanged_cell(
            activity::heard(room[at], rows[n - 1], zero, one),
            a,
            b,
        ));
        assert(activity::after_rows(
            exchanged_cells(cells, a, b),
            others,
            positions,
            zero,
            one,
            n,
        ) =~= exchanged_cells(
            activity::after_rows(cells, rows, positions, zero, one, n),
            a,
            b,
        ));
    }
}

/// Averaging frames and exchanging voices can be done in any order.
pub proof fn law_averages_are_exchanged<T: PartialOrd + Div<Output = T>>(
    cells: Seq<FrameActivity<T>>,
    zero: T,
    a: int,
    b: int,
)
    requires
        are_voices(a, b),
    ensures
        exchanged_cells(cells, a, b).map_values(
            |cell: FrameActivity<T>| activity::averaged(cell, zero),
        ) == exchanged_cells(
            cells.map_values(|cell: FrameActivity<T>| activity::averaged(cell, zero)),
            a,
            b,
        ),
{
    assert(exchanged_cells(cells, a, b).map_values(
        |cell: FrameActivity<T>| activity::averaged(cell, zero),
    ) =~= exchanged_cells(
        cells.map_values(|cell: FrameActivity<T>| activity::averaged(cell, zero)),
        a,
        b,
    ));
}

/// A segment with the number of its voice exchanged.
pub open spec fn renamed<T>(segment: DiarizationSegment<T>, a: int, b: int) -> DiarizationSegment<
    T,
> {
    DiarizationSegment {
        start: segment.start,
        end: segment.end,
        speaker_id: exchanged(segment.speaker_id as int, a, b) as usize,
    }
}

/// Of three lists behind each other, the list and the place that an element is from.
proof fn lemma_which<X>(x: Seq<X>, y: Seq<X>, z: Seq<X>, k: int) -> (at: (int, int))
    requires
        0 <= k < (x + y + z).len(),
    ensures
        0 <= at.0 < 3,
        at.0 == 0 ==> 0 <= at.1 < x.len() && (x + y + z)[k] == x[at.1],
        at.0 == 1 ==> 0 <= at.1 < y.len() && (x + y + z)[k] == y[at.1],
        at.0 == 2 ==> 0 <= at.1 < z.len() && (x + y + z)[k] == z[at.1],
{
    if k < x.len() {
        (0, k)
    } else if k < x.len() + y.len() {
        (1, k - x.len())
    } else {
        (2, k - x.len() - y.len())
    }
}

/// What is in one of three lists is in all three behind each other.
proof fn lemma_where<X>(x: Seq<X>, y: Seq<X>, z: Seq<X>, v: int, j: int, part: Seq<X>)
    requires
        0 <= v < 3,
        part == (if v == 0 {
            x
        } else if v == 1 {
            y
        } else {
            z
        }),
        0 <= j < part.len(),
    ensures
        (x + y + z).contains(part[j]),
{
    let k = if v == 0 {
        j
    } else if v == 1 {
        x.len() + j
    } else {
        x.len() + y.len() + j
    };
    assert((x + y + z)[k] == part[j]);
}

proof fn lemma_one_voice<A: PartialOrd, T: PartialOrd>(
    cells: Seq<FrameActivity<A>>,
    threshold: A,
    max_gap: int,
    min_len: int,
    times: Seq<T>,
    end_of_recording: T,
    a: int,
    b: int,
    voice: int,
)
    requires
        are_voices(a, b),
        0 <= voice < activity::VOICES,
    ensures
        ({
            let w = exchanged(voice, a, b);
            let others = speech::voice_segments(
                activity::loud(exchanged_cells(cells, a, b), voice, threshold),
                voice as usize,
                max_gap,
                min_len,
                times,
                end_of_recording,
            );
            let ours = speech::voice_segments(
                activity::loud(cells, w, threshold),
                w as usize,
                max_gap,
                min_len,
                times,
                end_of_recording,
            );
            &&& others.len() == ours.len()
            &&& forall|j: int|
                0 <= j < others.len() ==> renamed(#[trigger] others[j], a, b) == ours[j]
                    && others[j].speaker_id == voice
            &&& forall|j: int| 0 <= j < ours.len() ==> (#[trigger] ours[j]).speaker_id == w
        }),
{
    let w = exchanged(voice, a, b);
    let active = activity::loud(cells, w, threshold);
    assert(activity::loud(exchanged_cells(cells, a, b), voice, threshold) =~= active);
    let found = speech::runs(speech::bridged(active, max_gap), min_len);
    speech::lemma_timed_voice(
        found,
        voice as usize,
        w as usize,
        times,
        end_of_recording,
        found.len() as int,
    );
    speech::lemma_timed_voice(
        found,
        w as usize,
        voice as usize,
        times,
        end_of_recording,
        found.len() as int,
    );
}

/// Exchanging two voices in every frame exchanges their numbers in the segments
/// found, and changes nothing else.
pub proof fn law_exchanged_frames_rename_segments<A: PartialOrd, T: PartialOrd>(
    cells: Seq<FrameActivity<A>>,
    threshold: A,
    max_gap: int,
    min_len: int,
    times: Seq<T>,
    end_of_recording: T,
    a: int,
    b: int,
)
    requires
        are_voices(a, b),
    ensures
        ({
            let voices = activity::VOICES as int;
            let all = speech::all_segments(
                cells,
                threshold,
                max_gap,
                min_len,
                times,
                end_of_recording,
                voices,
            );
            let others = speech::all_segments(
                exchanged_cells(cells, a, b),
                threshold,
                max_gap,
                min_len,
                times,
                end_of_recording,
                voices,
            );
            &&& others.len() == all.len()
            &&& forall|segment: DiarizationSegment<T>| #[trigger]
                others.contains(segment) <==> all.contains(renamed(segment, a, b))
        }),
{
    let swapped = exchanged_cells(cells, a, b);
    let of = |cells: Seq<FrameActivity<A>>, v: int|
        speech::voice_segments(
            activity::loud(cells, v, threshold),
            v as usize,
            max_gap,
            min_len,
            times,
            end_of_recording,
        );
    let all = speech::all_segments(
        cells,
        threshold,
        max_gap,
        min_len,
        times,
        end_of_recording,
        activity::VOICES as int,
    );
    let others = speech::all_segments(
        swapped,
        threshold,
        max_gap,
        min_len,
        times,
        end_of_recording,
        activity::VOICES as int,
    );
    reveal_with_fuel(speech::all_segments, 4);
    assert(all =~= of(cells, 0) + of(cells, 1) + of(cells, 2));
    assert(others =~= of(swapped, 0) + of(swapped, 1) + of(swapped, 2));
    assert forall|v: int| 0 <= v < activity::VOICES implies #[trigger] activity::loud(
        swapped,
        v,
        threshold,
    ) == activity::loud(cells, exchanged(v, a, b), threshold) by {
        assert(activity::loud(swapped, v, threshold) =~= activity::loud(
            cells,
            exchanged(v, a, b),
            threshold,
        ));
    }
    lemma_one_voice(cells, threshold, max_gap, min_len, times, end_of_recording, a, b, 0);
    lemma_one_voice(cells, threshold, max_gap, min_len, times, end_of_recording, a, b, 1);
    lemma_one_voice(cells, threshold, max_gap, min_len, times, end_of_recording, a, b, 2);
    assert forall|segment: DiarizationSegment<T>| #[trigger]
        others.contains(segment) implies all.contains(renamed(segment, a, b)) by {
        let k = choose|k: int| 0 <= k < others.len() && others[k] == segment;
        let (v, j) = lemma_which(of(swapped, 0), of(swapped, 1), of(swapped, 2), k);
        let w = exchanged(v, a, b);
        assert(renamed(of(swapped, v)[j], a, b) == of(cells, w)[j]);
        lemma_where(of(cells, 0), of(cells, 1), of(cells, 2), w, j, of(cells, w));
    }
    assert forall|segment: DiarizationSegment<T>|
        all.contains(renamed(segment, a, b)) implies #[trigger] others.contains(segment) by {
        let other = renamed(segment, a, b);
        let k = choose|k: int| 0 <= k < all.len() && all[k] == other;
        let (w, j) = lemma_which(of(cells, 0), of(cells, 1), of(cells, 2), k);
        let v = exchanged(w, a, b);
        assert(exchanged(v, a, b) == w);
        assert(of(cells, w)[j].speaker_id == w);
        assert(renamed(of(swapped, v)[j], a, b) == of(cells, w)[j]);
        assert(of(swapped, v)[j] == segment);
        lemma_where(of(swapped, 0), of(swapped, 1), of(swapped, 2), v, j, of(swapped, v));
    }
}

/// Adding does not depend on the order of the numbers.
pub open spec fn adds_in_any_order<T: Add<Output = T>>() -> bool {
    &&& forall|x: T, y: T| #[trigger] x.add_spec(y) == y.add_spec(x)
    &&& forall|x: T, y: T, z: T| #[trigger]
        x.add_spec(y).add_spec(z) == x.add_spec(y.add_spec(z))
}

proof fn lemma_last_two<T: Add<Output = T>>(x: T, y: T, z: T)
    requires
        adds_in_any_order::<T>(),
    ensures
        x.add_spec(y).add_spec(z) == x.add_spec(z).add_spec(y),
{
    assert(x.add_spec(y).add_spec(z) == x.add_spec(y.add_spec(z)));
    assert(y.add_spec(z) == z.add_spec(y));
    assert(x.add_spec(z).add_spec(y) == x.add_spec(z.add_spec(y)));
}

proof fn lemma_last_three<T: Add<Output = T>>(w: T, x: T, y: T, z: T)
    requires
        adds_in_any_order::<T>(),
    ensures
        w.add_spec(x).add_spec(y).add_spec(z) == w.add_spec(z).add_spec(y).add_spec(x),
{
    lemma_last_two(w, x, y);
    lemma_last_two(w.add_spec(y), x, z);
    lemma_last_two(w, y, z);
}

/// Where adding does not depend on the order of the numbers, neither do the sums over
/// any row.
pub proof fn law_free_addition_adds_alike<T: PartialOrd + Add<Output = T> + Div<Output = T>>(
    row: Seq<T>,
    zero: T,
    a: int,
    b: int,
)
    requires
        are_voices(a, b),
        adds_in_any_order::<T>(),
    ensures
        adds_alike(row, zero, a, b),
{
    let other = exchanged_row(row, a, b);
    reveal_with_fuel(activity::total, 8);
    let t0 = zero.add_spec(row[0]);
    let t1 = t0.add_spec(row[1]);
    let t2 = t1.add_spec(row[2]);
    let t3 = t2.add_spec(row[3]);
    let t4 = t3.add_spec(row[4]);
    let t6 = t4.add_spec(row[5]).add_spec(row[6]);
    assert(activity::total(row, zero, 7) == t6);
    assert(activity::total(other, zero, 7) == zero.add_spec(other[0]).add_spec(other[1]).add_spec(
        other[2],
    ).add_spec(other[3]).add_spec(other[4]).add_spec(other[5]).add_spec(other[6]));
    lemma_last_two(t0, row[1], row[2]);
    lemma_last_two(t4, row[5], row[6]);
    lemma_last_three(t0, row[1], row[2], row[3]);
    lemma_last_three(t3, row[4], row[5], row[6]);
    lemma_last_two(t1, row[2], row[3]);
    lemma_last_two(t3, row[4], row[5]);
    assert(activity::total(other, zero, 7) == t6);
    let share = |class: int| activity::share(row, zero, class);
    lemma_last_two(share(1), share(4), share(5));
    lemma_last_two(share(2), share(4), share(6));
    lemma_last_two(share(3), share(5), share(6));
    assert forall|voice: int| 0 <= voice < activity::VOICES implies {
        let (first, second, third) = #[trigger] activity::classes_of(voice);
        activity::share(row, zero, exchanged_class(first, a, b)).add_spec(
            activity::share(row, zero, exchanged_class(second, a, b)),
        ).add_spec(activity::share(row, zero, exchanged_class(third, a, b)))
            == activity::likelihood(row, zero, exchanged(voice, a, b))
    } by {
        assert(voice == 0 || voice == 1 || voice == 2);
    }
}

proof fn lemma_peak_is_largest<T: PartialOrd>(row: Seq<T>, lowest: T, values: Set<T>, n: int)
    requires
        scalar::linear(values),
        values.contains(lowest),
        forall|k: int| 0 <= k < n ==> values.contains(#[trigger] row[k]),
    ensures
        values.contains(activity::peak(row, lowest, n)),
        scalar::le(lowest, activity::peak(row, lowest, n)),
        forall|k: int| 0 <= k < n ==> scalar::le(#[trigger] row[k], activity::peak(row, lowest, n)),
        activity::peak(row, lowest, n) == lowest || exists|k: int|
            0 <= k < n && #[trigger] row[k] == activity::peak(row, lowest, n),
    decreases n,
{
    if n > 0 {
        lemma_peak_is_largest(row, lowest, values, n - 1);
        let sofar = activity::peak(row, lowest, n - 1);
        let new = row[n - 1];
        assert(scalar::le(new, sofar) == !scalar::lt(sofar, new));
        assert(scalar::le(sofar, new) == !scalar::lt(new, sofar));
        assert(scalar::le(new, new));
        assert(scalar::le(lowest, sofar));
    } else {
        assert(scalar::le(lowest, lowest));
    }
}

/// The largest of a row does not depend on the order of its classes, if no two
/// different numbers are equally large.
pub proof fn law_largest_does_not_depend_on_order<T: PartialOrd>(
    row: Seq<T>,
    lowest: T,
    a: int,
    b: int,
    values: Set<T>,
)
    requires
        are_voices(a, b),
        scalar::linear(values),
        forall|x: T, y: T|
            values.contains(x) && values.contains(y) && #[trigger] scalar::le(x, y) && scalar::le(
                y,
                x,
            ) ==> x == y,
        values.contains(lowest),
        forall|k: int| 0 <= k < activity::CLASSES ==> values.contains(#[trigger] row[k]),
    ensures
        activity::peak(exchanged_row(row, a, b), lowest, activity::CLASSES as int)
            == activity::peak(row, lowest, activity::CLASSES as int),
{
    let n = activity::CLASSES as int;
    let other = exchanged_row(row, a, b);
    assert forall|k: int| 0 <= k < n implies values.contains(#[trigger] other[k]) by {
        assert(values.contains(row[exchanged_class(k, a, b)]));
    }
    lemma_peak_is_largest(row, lowest, values, n);
    lemma_peak_is_largest(other, lowest, values, n);
    let p = activity::peak(row, lowest, n);
    let q = activity::peak(other, lowest, n);
    assert(scalar::le(q, p)) by {
        if q != lowest {
            let k = choose|k: int| 0 <= k < n && #[trigger] other[k] == q;
            assert(row[exchanged_class(k, a, b)] == q);
        }
    }
    assert(scalar::le(p, q)) by {
        if p != lowest {
            let k = choose|k: int| 0 <= k < n && #[trigger] row[k] == p;
            assert(other[exchanged_class(k, a, b)] == p);
        }
    }
}

} // verus!
