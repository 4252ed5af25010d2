//! What becomes of values that are not numbers: they never decide anything.

use crate::activity;
use crate::activity::FrameActivity;
use crate::alignment;
use crate::clustering;
use crate::clustering::Measure;
use crate::diarizer;
use crate::features;
use crate::scalar;
use crate::speech;
use crate::types::DiarizationSegment;
use core::ops::{Add, Div, Sub};
use vstd::prelude::*;
#[allow(unused_imports)]
use vstd::std_specs::ops::{AddSpec, DivSpec, SubSpec};

verus! {

/// A voice does not count in a frame where how likely it is is not a number, nor anywhere
/// if the threshold is none.
pub proof fn law_no_number_is_not_loud<T: PartialOrd>(
    cells: Seq<FrameActivity<T>>,
    voice: int,
    threshold: T,
    i: int,
)
    requires
        0 <= i < cells.len(),
        scalar::is_no_number(cells[i].voice(voice)) || scalar::is_no_number(threshold),
    ensures
        !activity::loud(cells, voice, threshold)[i],
{
}

/// The largest score of a frame is a number, unless it is what the search starts from.
pub proof fn law_no_number_is_the_largest<T: PartialOrd>(row: Seq<T>, lowest: T, n: int)
    ensures
        activity::peak(row, lowest, n) == lowest || !scalar::is_no_number(
            activity::peak(row, lowest, n),
        ),
    decreases n,
{
    if n > 0 {
        law_no_number_is_the_largest(row, lowest, n - 1);
    }
}

/// Scores that do not add up to a number are left as they are.
pub proof fn law_no_number_is_shared<T: PartialOrd + Add<Output = T> + Div<Output = T>>(
    row: Seq<T>,
    zero: T,
    class: int,
)
    requires
        scalar::is_no_number(activity::total(row, zero, 7)),
    ensures
        activity::share(row, zero, class) == row[class],
{
}

/// A frame whose count is not a number is left as it is.
pub proof fn law_no_number_is_averaged<T: PartialOrd + Div<Output = T>>(
    cell: FrameActivity<T>,
    zero: T,
)
    requires
        scalar::is_no_number(cell.weight) || scalar::is_no_number(zero),
    ensures
        activity::averaged(cell, zero) == cell,
{
}

/// What starts or ends at no time is not found.
pub proof fn law_no_number_is_a_time<T: PartialOrd>(
    found: Seq<(int, int)>,
    voice: usize,
    times: Seq<T>,
    end_of_recording: T,
    n: int,
    k: int,
)
    requires
        0 <= k < speech::timed(found, voice, times, end_of_recording, n).len(),
    ensures
        !scalar::is_no_number(speech::timed(found, voice, times, end_of_recording, n)[k].start),
        !scalar::is_no_number(speech::timed(found, voice, times, end_of_recording, n)[k].end),
    decreases n,
{
    if n > 0 && k < speech::timed(found, voice, times, end_of_recording, n - 1).len() {
        law_no_number_is_a_time(found, voice, times, end_of_recording, n - 1, k);
    }
}

/// A vector whose length is not a number is left as it is.
pub proof fn law_no_number_is_a_length<T: PartialOrd + Div<Output = T>>(
    values: Seq<T>,
    norm: T,
    smallest: T,
)
    requires
        scalar::is_no_number(norm) || scalar::is_no_number(smallest),
    ensures
        features::unit(values, norm, smallest) == values,
{
}

/// The distance of the closest pair is a number, unless it is what the search starts from.
pub proof fn law_no_number_is_close<
    T: PartialOrd + Add<Output = T> + Sub<Output = T> + Div<Output = T>,
>(measure: Measure<T>, clusters: Seq<Seq<usize>>, i: int, j: int)
    ensures
        ({
            let distance = clustering::nearest_upto(measure, clusters, i, j).distance;
            distance == measure.units.largest || !scalar::is_no_number(distance)
        }),
    decreases i, j,
{
    if 0 <= i && j > i + 1 {
        law_no_number_is_close(measure, clusters, i, j - 1);
    } else if i > 0 {
        law_no_number_is_close(measure, clusters, i - 1, clusters.len() as int);
    }
}

/// Nothing is merged if the threshold is not a number.
pub proof fn law_no_number_is_a_threshold<
    T: PartialOrd + Add<Output = T> + Sub<Output = T> + Div<Output = T>,
>(measure: Measure<T>, clusters: Seq<Seq<usize>>)
    requires
        scalar::is_no_number(measure.threshold),
    ensures
        clustering::agglomerated(measure, clusters) == clusters,
{
}

/// A segment that starts at no time is not joined to another, nor is one to a segment
/// that ends at none.
pub proof fn law_no_number_is_reached<T: PartialOrd + Add<Output = T>>(
    last: DiarizationSegment<T>,
    segment: DiarizationSegment<T>,
    tolerance: T,
)
    requires
        scalar::is_no_number(segment.start) || scalar::is_no_number(last.end.add_spec(tolerance)),
    ensures
        !diarizer::continues(last, segment, tolerance),
{
}

/// Joining never puts an end that is not a number in the place of another.
pub proof fn law_no_number_is_a_later_end<T: PartialOrd>(
    last: DiarizationSegment<T>,
    segment: DiarizationSegment<T>,
)
    requires
        scalar::is_no_number(segment.end) || scalar::is_no_number(last.end),
    ensures
        diarizer::extended(last, segment).end == last.end,
{
}

/// A line is not given to a segment with which it coincides for no time that is a number.
pub proof fn law_no_number_is_an_overlap<T: PartialOrd + Sub<Output = T>>(
    segments: Seq<DiarizationSegment<T>>,
    start: T,
    end: T,
    zero: T,
    n: int,
)
    ensures
        match alignment::longest_overlap(segments, start, end, zero, n).0 {
            Some(k) => !scalar::is_no_number(alignment::overlap(segments[k], start, end)),
            None => true,
        },
    decreases n,
{
    if n > 0 {
        law_no_number_is_an_overlap(segments, start, end, zero, n - 1);
    }
}

} // verus!
