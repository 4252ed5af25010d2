//! Runs of frames in which one voice is heard.

use crate::activity;
use crate::activity::{ActivityGrid, FrameActivity};
use crate::order;
use crate::order::sort_by_start;
use crate::scalar;
use crate::types::DiarizationSegment;
use vstd::prelude::*;

verus! {

/// The silence `[start, end)` lies between two active frames and has no active
/// frame in it.
pub open spec fn is_gap(active: Seq<bool>, start: int, end: int) -> bool {
    &&& 0 < start < end < active.len()
    &&& active[start - 1]
    &&& active[end]
    &&& forall|k: int| start <= k < end ==> !active[k]
}

/// Frame `at` lies in a gap of at most `max_gap` frames.
pub open spec fn in_short_gap(active: Seq<bool>, max_gap: int, at: int) -> bool {
    exists|start: int, end: int|
        #![trigger is_gap(active, start, end)]
        is_gap(active, start, end) && end - start <= max_gap && start <= at < end
}

/// Frame `at` counts as active once gaps of at most `max_gap` frames are bridged.
pub open spec fn bridges(active: Seq<bool>, max_gap: int, at: int) -> bool {
    active[at] || in_short_gap(active, max_gap, at)
}

/// The frames that count as active once gaps of at most `max_gap` frames are
/// bridged.
pub open spec fn bridged(active: Seq<bool>, max_gap: int) -> Seq<bool> {
    Seq::new(active.len(), |at: int| bridges(active, max_gap, at))
}

/// Marks the frames of every gap of at most `max_gap` frames as active. Silence
/// before the first or after the last active frame is no gap.
pub fn fill_gaps(active: &mut Vec<bool>, max_gap: usize)
    ensures
        final(active)@ == bridged(old(active)@, max_gap as int),
{
    let ghost before = active@;
    let total: usize = active.len();
    let mut gap_start: Option<usize> = None;
    let mut i: usize = 0;
    while i < total
        invariant
            i <= total,
            total == before.len(),
            active@.len() == before.len(),
            // Frames from `i` on, and those of an open gap, are untouched.
            forall|at: int| i <= at < total ==> active@[at] == before[at],
            match gap_start {
                None => i == 0 || before[i - 1],
                Some(start) => {
                    &&& start < i
                    &&& start > 0 ==> before[start - 1]
                    &&& forall|at: int| start <= at < i ==> !before[at]
                    &&& forall|at: int| start <= at < i ==> active@[at] == before[at]
                },
            },
            forall|at: int|
                0 <= at < (if gap_start is Some {
                    gap_start->0
                } else {
                    i
                }) ==> #[trigger] active@[at] == bridges(before, max_gap as int, at),
        decreases total - i,
    {
        if !active[i] {
            if gap_start.is_none() {
                gap_start = Some(i);
            }
        } else {
            if let Some(start) = gap_start {
                let gap_len: usize = i - start;
                let fills: bool = gap_len <= max_gap && start > 0;
                proof {
                    if start > 0 {
                        assert(is_gap(before, start as int, i as int));
                    }
                }
                if fills {
                    let mut j: usize = start;
                    while j < i
                        invariant
                            start <= j <= i,
                            i < total,
                            active@.len() == total,
                            forall|at: int| i <= at < total ==> active@[at] == before[at],
                            forall|at: int| start <= at < j ==> active@[at],
                            forall|at: int|
                                0 <= at < start ==> #[trigger] active@[at] == bridges(
                                    before,
                                    max_gap as int,
                                    at,
                                ),
                        decreases i - j,
                    {
                        active.set(j, true);
                        j = j + 1;
                    }
                }
                proof {
                    assert forall|at: int| start <= at < i implies #[trigger] active@[at]
                        == bridges(before, max_gap as int, at) by {
                        if in_short_gap(before, max_gap as int, at) {
                            let (s, e) = choose|s: int, e: int|
                                #![trigger is_gap(before, s, e)]
                                is_gap(before, s, e) && e - s <= max_gap && s <= at < e;
                            lemma_gap_is_unique(before, start as int, i as int, s, e, at);
                        }
                    }
                }
                gap_start = None;
            }
            proof {
                assert(!in_short_gap(before, max_gap as int, i as int)) by {
                    if in_short_gap(before, max_gap as int, i as int) {
                        let (s, e) = choose|s: int, e: int|
                            #![trigger is_gap(before, s, e)]
                            is_gap(before, s, e) && e - s <= max_gap && s <= i < e;
                        assert(!before[i as int]);
                    }
                }
            }
        }
        i = i + 1;
    }
    proof {
        if let Some(start) = gap_start {
            assert forall|at: int| start <= at < total implies !in_short_gap(
                before,
                max_gap as int,
                at,
            ) by {
                if in_short_gap(before, max_gap as int, at) {
                    let (s, e) = choose|s: int, e: int|
                        #![trigger is_gap(before, s, e)]
                        is_gap(before, s, e) && e - s <= max_gap && s <= at < e;
                    assert(before[e]);
                }
            }
        }
        assert(active@ =~= bridged(before, max_gap as int));
    }
}

/// A stretch of silence that ends at an active frame, or at frame 0, has one
/// extent only.
proof fn lemma_gap_is_unique(active: Seq<bool>, start: int, end: int, s: int, e: int, at: int)
    requires
        0 <= start <= at < end < active.len(),
        start > 0 ==> active[start - 1],
        active[end],
        forall|k: int| start <= k < end ==> !active[k],
        is_gap(active, s, e),
        s <= at < e,
    ensures
        s == start,
        e == end,
{
    if s < start {
        assert(!active[start - 1]);
    }
    if s > start {
        assert(active[s - 1]);
    }
    if e < end {
        assert(active[e]);
    }
    if e > end {
        assert(!active[end]);
    }
}

/// Every frame of `[start, end)` is active and no neighbour of it is.
pub open spec fn is_run(active: Seq<bool>, start: int, end: int) -> bool {
    &&& 0 <= start < end <= active.len()
    &&& forall|k: int| start <= k < end ==> active[k]
    &&& start > 0 ==> !active[start - 1]
    &&& end < active.len() ==> !active[end]
}

/// Where the active frames that start at `at` end.
pub open spec fn run_end(active: Seq<bool>, at: int) -> int
    decreases active.len() - at,
{
    if 0 <= at < active.len() && active[at] {
        run_end(active, at + 1)
    } else {
        at
    }
}

/// The runs of at least `min_len` frames from frame `at` on, first to last.
pub open spec fn runs_from(active: Seq<bool>, min_len: int, at: int) -> Seq<(int, int)>
    decreases active.len() - at,
    when 0 <= at <= active.len()
    via runs_from_decreases
{
    if at >= active.len() {
        Seq::empty()
    } else if active[at] {
        let end = run_end(active, at);
        let rest = runs_from(active, min_len, end);
        if end - at >= min_len {
            seq![(at, end)] + rest
        } else {
            rest
        }
    } else {
        runs_from(active, min_len, at + 1)
    }
}

#[via_fn]
proof fn runs_from_decreases(active: Seq<bool>, min_len: int, at: int) {
    if at < active.len() && active[at] {
        lemma_run_end(active, at);
    }
}

/// The runs of at least `min_len` frames, first to last.
pub open spec fn runs(active: Seq<bool>, min_len: int) -> Seq<(int, int)> {
    runs_from(active, min_len, 0)
}

/// The same pairs of frames, as integers.
pub open spec fn as_ints(pairs: Seq<(usize, usize)>) -> Seq<(int, int)> {
    pairs.map_values(|p: (usize, usize)| (p.0 as int, p.1 as int))
}

proof fn lemma_run_end(active: Seq<bool>, at: int)
    requires
        0 <= at < active.len(),
        active[at],
    ensures
        at < run_end(active, at) <= active.len(),
        forall|k: int| at <= k < run_end(active, at) ==> active[k],
        run_end(active, at) < active.len() ==> !active[run_end(active, at)],
    decreases active.len() - at,
{
    reveal_with_fuel(run_end, 2);
    if at + 1 < active.len() && active[at + 1] {
        lemma_run_end(active, at + 1);
    }
}

proof fn lemma_run_end_is(active: Seq<bool>, at: int, end: int)
    requires
        0 <= at < end <= active.len(),
        forall|k: int| at <= k < end ==> active[k],
        end < active.len() ==> !active[end],
    ensures
        run_end(active, at) == end,
{
    lemma_run_end(active, at);
    let found = run_end(active, at);
    if found < end {
        assert(active[found]);
    }
    if found > end {
        assert(active[end]);
    }
}

/// Finds the runs of at least `min_len` active frames, first to last, each as
/// its first frame and the frame after its last.
pub fn active_runs(active: &Vec<bool>, min_len: usize) -> (found: Vec<(usize, usize)>)
    ensures
        as_ints(found@) == runs(active@, min_len as int),
{
    let mut found: Vec<(usize, usize)> = Vec::new();
    let mut run_start: Option<usize> = None;
    let mut i: usize = 0;
    proof {
        assert(as_ints(found@) =~= Seq::empty());
        assert(as_ints(found@) + runs(active@, min_len as int) =~= runs(active@, min_len as int));
    }
    while i < active.len()
        invariant
            i <= active.len(),
            match run_start {
                None => as_ints(found@) + runs_from(active@, min_len as int, i as int) == runs(
                    active@,
                    min_len as int,
                ),
                Some(start) => {
                    &&& start < i
                    &&& forall|k: int| start <= k < i ==> active@[k]
                    &&& as_ints(found@) + runs_from(active@, min_len as int, start as int) == runs(
                        active@,
                        min_len as int,
                    )
                },
            },
        decreases active.len() - i,
    {
        if active[i] {
            if run_start.is_none() {
                run_start = Some(i);
            }
        } else {
            if let Some(start) = run_start {
                let len_frames: usize = i - start;
                let ghost sofar = found@;
                proof {
                    lemma_run_end_is(active@, start as int, i as int);
                }
                if len_frames >= min_len {
                    found.push((start, i));
                    proof {
                        lemma_one_more_run(active@, min_len as int, sofar, start, i);
                    }
                }
                run_start = None;
            }
            proof {
                assert(runs_from(active@, min_len as int, i as int) == runs_from(
                    active@,
                    min_len as int,
                    i + 1,
                ));
            }
        }
        i = i + 1;
    }
    if let Some(start) = run_start {
        let len_frames: usize = active.len() - start;
        let ghost sofar = found@;
        proof {
            lemma_run_end_is(active@, start as int, i as int);
        }
        if len_frames >= min_len {
            found.push((start, active.len()));
            proof {
                lemma_one_more_run(active@, min_len as int, sofar, start, i);
            }
        }
    }
    proof {
        assert(as_ints(found@) + runs_from(active@, min_len as int, i as int) =~= as_ints(found@));
    }
    found
}

proof fn lemma_one_more_run(
    active: Seq<bool>,
    min_len: int,
    sofar: Seq<(usize, usize)>,
    start: usize,
    end: usize,
)
    requires
        start < end <= active.len(),
        active[start as int],
        run_end(active, start as int) == end,
        end - start >= min_len,
    ensures
        as_ints(sofar.push((start, end))) + runs_from(active, min_len, end as int) == as_ints(sofar)
            + runs_from(active, min_len, start as int),
{
    assert(as_ints(sofar.push((start, end))) =~= as_ints(sofar).push((start as int, end as int)));
    assert(as_ints(sofar.push((start, end))) + runs_from(active, min_len, end as int) =~= as_ints(
        sofar,
    ) + runs_from(active, min_len, start as int));
}

/// Bridging the gaps a second time changes nothing: no gap that is short enough
/// is left.
pub proof fn law_bridging_leaves_no_short_gap(active: Seq<bool>, max_gap: int)
    ensures
        bridged(bridged(active, max_gap), max_gap) == bridged(active, max_gap),
{
    let once = bridged(active, max_gap);
    assert forall|at: int| 0 <= at < once.len() implies !(!once[at] && in_short_gap(
        once,
        max_gap,
        at,
    )) by {
        if !once[at] && in_short_gap(once, max_gap, at) {
            let (s, e) = choose|s: int, e: int|
                #![trigger is_gap(once, s, e)]
                is_gap(once, s, e) && e - s <= max_gap && s <= at < e;
            assert forall|k: int| s <= k < e implies !active[k] by {
                assert(!once[k]);
            }
            lemma_bridged_edges(active, max_gap, s, e);
            assert(is_gap(active, s, e));
            assert(in_short_gap(active, max_gap, at));
        }
    }
    assert(bridged(once, max_gap) =~= once);
}

proof fn lemma_bridged_edges(active: Seq<bool>, max_gap: int, s: int, e: int)
    requires
        is_gap(bridged(active, max_gap), s, e),
    ensures
        active[s - 1],
        active[e],
{
    let once = bridged(active, max_gap);
    assert(!once[s] && !once[e - 1]);
    if !active[s - 1] {
        assert(in_short_gap(active, max_gap, s - 1));
        let (x, y) = choose|x: int, y: int|
            #![trigger is_gap(active, x, y)]
            is_gap(active, x, y) && y - x <= max_gap && x <= s - 1 < y;
        if s < y {
            assert(in_short_gap(active, max_gap, s));
        } else {
            assert(active[s]);
        }
    }
    if !active[e] {
        assert(in_short_gap(active, max_gap, e));
        let (x, y) = choose|x: int, y: int|
            #![trigger is_gap(active, x, y)]
            is_gap(active, x, y) && y - x <= max_gap && x <= e < y;
        if x < e {
            assert(in_short_gap(active, max_gap, e - 1));
        } else {
            assert(active[e - 1]);
        }
    }
}

/// Bridging keeps every frame that was active, and makes active only frames of
/// gaps that are short enough.
pub proof fn law_bridging_only_adds_short_gaps(active: Seq<bool>, max_gap: int, at: int)
    requires
        0 <= at < active.len(),
    ensures
        active[at] ==> bridged(active, max_gap)[at],
        bridged(active, max_gap)[at] && !active[at] ==> in_short_gap(active, max_gap, at),
{
}

/// The runs found are exactly the stretches of active frames that cannot be
/// extended and are long enough, and they come first to last without touching.
pub proof fn law_runs_are_the_long_stretches(active: Seq<bool>, min_len: int)
    ensures
        forall|start: int, end: int|
            #![trigger runs(active, min_len).contains((start, end))]
            #![trigger is_run(active, start, end)]
            runs(active, min_len).contains((start, end)) <==> is_run(active, start, end) && end - start
                >= min_len,
        forall|i: int, j: int|
            0 <= i < j < runs(active, min_len).len() ==> (#[trigger] runs(active, min_len)[i]).1 < (
            #[trigger] runs(active, min_len)[j]).0,
{
    lemma_runs_from(active, min_len, 0);
}

proof fn lemma_runs_from(active: Seq<bool>, min_len: int, at: int)
    requires
        0 <= at <= active.len(),
        at > 0 && at < active.len() && active[at] ==> !active[at - 1],
    ensures
        forall|start: int, end: int|
            #![trigger runs_from(active, min_len, at).contains((start, end))]
            #![trigger is_run(active, start, end)]
            runs_from(active, min_len, at).contains((start, end)) <==> at <= start && is_run(
                active,
                start,
                end,
            ) && end - start >= min_len,
        forall|i: int, j: int|
            0 <= i < j < runs_from(active, min_len, at).len() ==> (#[trigger] runs_from(
                active,
                min_len,
                at,
            )[i]).1 < (#[trigger] runs_from(active, min_len, at)[j]).0,
    decreases active.len() - at,
{
    let all = runs_from(active, min_len, at);
    if at >= active.len() {
        assert(all.len() == 0);
    } else if !active[at] {
        lemma_runs_from(active, min_len, at + 1);
        assert(all == runs_from(active, min_len, at + 1));
        assert forall|start: int, end: int|
            #![trigger is_run(active, start, end)]
            at <= start && is_run(active, start, end) && end - start >= min_len implies at + 1
            <= start by {
            assert(active[start]);
        }
    } else {
        lemma_run_end(active, at);
        let end0 = run_end(active, at);
        lemma_runs_from(active, min_len, end0);
        let rest = runs_from(active, min_len, end0);
        assert(is_run(active, at, end0));
        assert(all == if end0 - at >= min_len {
            seq![(at, end0)] + rest
        } else {
            rest
        });
        assert forall|start: int, end: int|
            #![trigger all.contains((start, end))]
            #![trigger is_run(active, start, end)]
            all.contains((start, end)) <==> at <= start && is_run(active, start, end) && end - start
                >= min_len by {
            if at <= start && is_run(active, start, end) && end - start >= min_len {
                if start < end0 {
                    if start > at {
                        assert(active[start - 1]);
                    }
                    if end < end0 {
                        assert(active[end]);
                    }
                    if end > end0 {
                        assert(active[end0]);
                    }
                    assert(all[0] == (start, end));
                } else {
                    assert(rest.contains((start, end)));
                    let k = choose|k: int| 0 <= k < rest.len() && rest[k] == (start, end);
                    if end0 - at >= min_len {
                        assert(all[k + 1] == (start, end));
                    } else {
                        assert(all[k] == (start, end));
                    }
                }
            }
            if all.contains((start, end)) {
                let k = choose|k: int| 0 <= k < all.len() && all[k] == (start, end);
                if end0 - at >= min_len {
                    if k > 0 {
                        assert(rest[k - 1] == (start, end));
                        assert(rest.contains((start, end)));
                    }
                } else {
                    assert(rest.contains((start, end)));
                }
            }
        }
        assert forall|i: int, j: int| 0 <= i < j < all.len() implies (#[trigger] all[i]).1 < (
        #[trigger] all[j]).0 by {
            if end0 - at >= min_len {
                assert(all[j] == rest[j - 1]);
                if i > 0 {
                    assert(all[i] == rest[i - 1]);
                } else {
                    let later = rest[j - 1];
                    assert(rest.contains((later.0, later.1)));
                    assert(is_run(active, later.0, later.1));
                    assert(active[later.0]);
                }
            }
        }
    }
}

/// A time, or the end of the recording if that comes first.
pub open spec fn clipped<T: PartialOrd>(time: T, end_of_recording: T) -> T {
    if scalar::gt(time, end_of_recording) {
        end_of_recording
    } else {
        time
    }
}

/// The segments of the first `n` runs of one voice: frame `i` starts at
/// `times[i]`, no segment ends after the recording, and a run with nothing of the
/// recording in it has no segment.
pub open spec fn timed<T: PartialOrd>(
    found: Seq<(int, int)>,
    voice: usize,
    times: Seq<T>,
    end_of_recording: T,
    n: int,
) -> Seq<DiarizationSegment<T>>
    decreases n,
{
    if n <= 0 {
        Seq::empty()
    } else {
        let sofar = timed(found, voice, times, end_of_recording, n - 1);
        let start = times[found[n - 1].0];
        let end = clipped(times[found[n - 1].1], end_of_recording);
        if scalar::lt(start, end) {
            sofar.push(DiarizationSegment { start, end, speaker_id: voice })
        } else {
            sofar
        }
    }
}

/// The segments of one voice, first to last.
pub open spec fn voice_segments<T: PartialOrd>(
    active: Seq<bool>,
    voice: usize,
    max_gap: int,
    min_len: int,
    times: Seq<T>,
    end_of_recording: T,
) -> Seq<DiarizationSegment<T>> {
    let found = runs(bridged(active, max_gap), min_len);
    timed(found, voice, times, end_of_recording, found.len() as int)
}

/// The segments of the first `voices` voices, one voice after the other.
pub open spec fn all_segments<A: PartialOrd, T: PartialOrd>(
    cells: Seq<FrameActivity<A>>,
    threshold: A,
    max_gap: int,
    min_len: int,
    times: Seq<T>,
    end_of_recording: T,
    voices: int,
) -> Seq<DiarizationSegment<T>>
    decreases voices,
{
    if voices <= 0 {
        Seq::empty()
    } else {
        all_segments(cells, threshold, max_gap, min_len, times, end_of_recording, voices - 1)
            + voice_segments(
            activity::loud(cells, voices - 1, threshold),
            (voices - 1) as usize,
            max_gap,
            min_len,
            times,
            end_of_recording,
        )
    }
}

/// Finds where each voice is heard: frames in which it is at least as likely as
/// `threshold`, with gaps of at most `max_gap` frames bridged, in runs of at
/// least `min_len` frames. Frame `i` starts at `times[i]`. The segments come in
/// order of their starts, and carry the number of the voice.
pub fn find_segments<A: Copy + PartialOrd, T: Copy + PartialOrd>(
    grid: &ActivityGrid<A>,
    threshold: A,
    max_gap: usize,
    min_len: usize,
    times: &Vec<T>,
    end_of_recording: T,
) -> (segments: Vec<DiarizationSegment<T>>)
    requires
        scalar::ordered::<A>(),
        scalar::ordered::<T>(),
        times@.len() > grid.cells@.len(),
        scalar::linear(
            order::starts(
                all_segments(
                    grid.cells@,
                    threshold,
                    max_gap as int,
                    min_len as int,
                    times@,
                    end_of_recording,
                    activity::VOICES as int,
                ),
            ),
        ),
    ensures
        segments@ == order::sorted_by_start(
            all_segments(
                grid.cells@,
                threshold,
                max_gap as int,
                min_len as int,
                times@,
                end_of_recording,
                activity::VOICES as int,
            ),
        ),
        order::is_sorted_from(
            all_segments(
                grid.cells@,
                threshold,
                max_gap as int,
                min_len as int,
                times@,
                end_of_recording,
                activity::VOICES as int,
            ),
            segments@,
        ),
{
    let mut segments: Vec<DiarizationSegment<T>> = Vec::new();
    let mut voice: usize = 0;
    while voice < activity::VOICES
        invariant
            voice <= activity::VOICES,
            scalar::ordered::<A>(),
            scalar::ordered::<T>(),
            times@.len() > grid.cells@.len(),
            segments@ == all_segments(
                grid.cells@,
                threshold,
                max_gap as int,
                min_len as int,
                times@,
                end_of_recording,
                voice as int,
            ),
        decreases activity::VOICES - voice,
    {
        let mut active: Vec<bool> = grid.loud_frames(voice, threshold);
        fill_gaps(&mut active, max_gap);
        let found: Vec<(usize, usize)> = active_runs(&active, min_len);
        let ghost earlier = segments@;
        let ghost places = as_ints(found@);
        proof {
            law_runs_are_the_long_stretches(active@, min_len as int);
            assert forall|k: int| 0 <= k < places.len() implies 0 <= (#[trigger] places[k]).0
                < places[k].1 <= active@.len() by {
                assert(places.contains((places[k].0, places[k].1)));
                assert(is_run(active@, places[k].0, places[k].1));
            }
            assert(earlier + timed(places, voice, times@, end_of_recording, 0) =~= earlier);
        }
        let mut next: usize = 0;
        while next < found.len()
            invariant
                next <= found@.len(),
                scalar::ordered::<T>(),
                places == as_ints(found@),
                times@.len() > grid.cells@.len(),
                active@.len() == grid.cells@.len(),
                forall|k: int|
                    0 <= k < places.len() ==> 0 <= (#[trigger] places[k]).0 < places[k].1
                        <= active@.len(),
                segments@ == earlier + timed(places, voice, times@, end_of_recording, next as int),
            decreases found@.len() - next,
        {
            let (first, after): (usize, usize) = found[next];
            proof {
                assert(places[next as int] == (first as int, after as int));
            }
            let start: T = times[first];
            let mut end: T = times[after];
            if end > end_of_recording {
                end = end_of_recording;
            }
            if start < end {
                segments.push(DiarizationSegment { start, end, speaker_id: voice });
            }
            next = next + 1;
            proof {
                assert(segments@ =~= earlier + timed(
                    places,
                    voice,
                    times@,
                    end_of_recording,
                    next as int,
                ));
            }
        }
        voice = voice + 1;
    }
    sort_by_start(&segments)
}

/// Every segment found lasts, starts where a frame does, ends where a frame does
/// or with the recording, and carries the number of a voice.
pub proof fn law_found_segments_last<A: PartialOrd, T: PartialOrd>(
    cells: Seq<FrameActivity<A>>,
    threshold: A,
    max_gap: int,
    min_len: int,
    times: Seq<T>,
    end_of_recording: T,
    voices: int,
    k: int,
)
    requires
        times.len() > cells.len(),
        0 <= voices <= activity::VOICES,
        0 <= k < all_segments(
            cells,
            threshold,
            max_gap,
            min_len,
            times,
            end_of_recording,
            voices,
        ).len(),
    ensures
        ({
            let segment = all_segments(
                cells,
                threshold,
                max_gap,
                min_len,
                times,
                end_of_recording,
                voices,
            )[k];
            &&& scalar::lt(segment.start, segment.end)
            &&& times.contains(segment.start)
            &&& segment.end == end_of_recording || (times.contains(segment.end) && !scalar::gt(
                segment.end,
                end_of_recording,
            ))
            &&& segment.speaker_id < voices
        }),
    decreases voices,
{
    if voices > 0 {
        let earlier = all_segments(
            cells,
            threshold,
            max_gap,
            min_len,
            times,
            end_of_recording,
            voices - 1,
        );
        if k < earlier.len() {
            law_found_segments_last(
                cells,
                threshold,
                max_gap,
                min_len,
                times,
                end_of_recording,
                voices - 1,
                k,
            );
        } else {
            let active = bridged(activity::loud(cells, voices - 1, threshold), max_gap);
            let found = runs(active, min_len);
            law_runs_are_the_long_stretches(active, min_len);
            assert forall|r: int| 0 <= r < found.len() implies 0 <= (#[trigger] found[r]).0
                < found[r].1 < times.len() by {
                assert(found.contains((found[r].0, found[r].1)));
                assert(is_run(active, found[r].0, found[r].1));
            }
            lemma_timed(
                found,
                (voices - 1) as usize,
                times,
                end_of_recording,
                found.len() as int,
                k - earlier.len(),
            );
        }
    }
}

proof fn lemma_timed<T: PartialOrd>(
    found: Seq<(int, int)>,
    voice: usize,
    times: Seq<T>,
    end_of_recording: T,
    n: int,
    k: int,
)
    requires
        0 <= n <= found.len(),
        0 <= k < timed(found, voice, times, end_of_recording, n).len(),
        forall|r: int|
            0 <= r < found.len() ==> 0 <= (#[trigger] found[r]).0 < found[r].1 < times.len(),
    ensures
        ({
            let segment = timed(found, voice, times, end_of_recording, n)[k];
            &&& scalar::lt(segment.start, segment.end)
            &&& times.contains(segment.start)
            &&& segment.end == end_of_recording || (times.contains(segment.end) && !scalar::gt(
                segment.end,
                end_of_recording,
            ))
            &&& segment.speaker_id == voice
        }),
    decreases n,
{
    if n > 0 {
        let sofar = timed(found, voice, times, end_of_recording, n - 1);
        if k < sofar.len() {
            lemma_timed(found, voice, times, end_of_recording, n - 1, k);
        } else {
            let run = found[n - 1];
            assert(times.contains(times[run.0]));
            assert(times.contains(times[run.1]));
        }
    }
}

/// If the times of the frames are in one line, so are the starts of the segments
/// found.
pub proof fn law_frame_times_line_up_segments<A: PartialOrd, T: PartialOrd>(
    cells: Seq<FrameActivity<A>>,
    threshold: A,
    max_gap: int,
    min_len: int,
    times: Seq<T>,
    end_of_recording: T,
)
    requires
        times.len() > cells.len(),
        scalar::linear(times.to_set()),
    ensures
        scalar::linear(
            order::starts(
                all_segments(
                    cells,
                    threshold,
                    max_gap,
                    min_len,
                    times,
                    end_of_recording,
                    activity::VOICES as int,
                ),
            ),
        ),
{
    let found = all_segments(
        cells,
        threshold,
        max_gap,
        min_len,
        times,
        end_of_recording,
        activity::VOICES as int,
    );
    assert forall|t: T| #[trigger] order::starts(found).contains(t) implies times.to_set().contains(
        t,
    ) by {
        let keys = found.map_values(|s: DiarizationSegment<T>| s.start);
        let k = choose|k: int| 0 <= k < keys.len() && keys[k] == t;
        law_found_segments_last(
            cells,
            threshold,
            max_gap,
            min_len,
            times,
            end_of_recording,
            activity::VOICES as int,
            k,
        );
    }
}

/// A segment that a run of at least `min_len` of these frames becomes, when frame
/// `i` starts at `times[i]`.
pub open spec fn comes_of<T: PartialOrd>(
    segment: DiarizationSegment<T>,
    active: Seq<bool>,
    min_len: int,
    times: Seq<T>,
    end_of_recording: T,
    first: int,
    after: int,
) -> bool {
    &&& is_run(active, first, after)
    &&& after - first >= min_len
    &&& segment.start == times[first]
    &&& segment.end == clipped(times[after], end_of_recording)
}

/// A segment comes of a run of at least `min_len` of these frames.
pub open spec fn is_long<T: PartialOrd>(
    segment: DiarizationSegment<T>,
    active: Seq<bool>,
    min_len: int,
    times: Seq<T>,
    end_of_recording: T,
) -> bool {
    exists|first: int, after: int| #[trigger]
        comes_of(segment, active, min_len, times, end_of_recording, first, after)
}

/// Two segments come of runs of these frames, and more than `max_gap` frames lie
/// between the end of the one and the start of the other.
pub open spec fn is_well_before<T: PartialOrd>(
    one: DiarizationSegment<T>,
    other: DiarizationSegment<T>,
    active: Seq<bool>,
    max_gap: int,
    min_len: int,
    times: Seq<T>,
    end_of_recording: T,
) -> bool {
    exists|first: int, after: int, next: int, last: int|
        #![trigger comes_of(one, active, min_len, times, end_of_recording, first, after), comes_of(
            other,
            active,
            min_len,
            times,
            end_of_recording,
            next,
            last,
        )]
        comes_of(one, active, min_len, times, end_of_recording, first, after) && comes_of(
            other,
            active,
            min_len,
            times,
            end_of_recording,
            next,
            last,
        ) && next - after > max_gap
}

/// The first active frame from `at` on.
spec fn next_active(active: Seq<bool>, at: int) -> int
    decreases active.len() - at,
{
    if 0 <= at < active.len() && !active[at] {
        next_active(active, at + 1)
    } else {
        at
    }
}

proof fn lemma_next_active(active: Seq<bool>, at: int, until: int)
    requires
        0 <= at <= until < active.len(),
        active[until],
    ensures
        at <= next_active(active, at) <= until,
        active[next_active(active, at)],
        forall|k: int| at <= k < next_active(active, at) ==> !active[k],
    decreases until - at,
{
    if !active[at] {
        lemma_next_active(active, at + 1, until);
    }
}

/// Once gaps are bridged, two runs of active frames lie more than the longest gap
/// apart.
pub proof fn law_bridged_runs_are_apart(
    active: Seq<bool>,
    max_gap: int,
    start: int,
    end: int,
    next: int,
    last: int,
)
    requires
        is_run(bridged(active, max_gap), start, end),
        is_run(bridged(active, max_gap), next, last),
        end <= next,
    ensures
        next - end > max_gap,
{
    let once = bridged(active, max_gap);
    if next == end {
        assert(once[next]);
    }
    lemma_next_active(once, end, next);
    let e = next_active(once, end);
    assert(once[end - 1]);
    assert(!once[end]);
    assert(is_gap(once, end, e));
    if next - end <= max_gap {
        assert(in_short_gap(once, max_gap, end));
        law_bridging_leaves_no_short_gap(active, max_gap);
        assert(bridged(once, max_gap)[end]);
    }
}

/// The run that segment `k` of the first `n` runs comes of.
spec fn run_of<T: PartialOrd>(
    found: Seq<(int, int)>,
    times: Seq<T>,
    end_of_recording: T,
    n: int,
    k: int,
) -> int
    decreases n,
{
    if n <= 0 {
        0
    } else if k < timed(found, 0, times, end_of_recording, n - 1).len() {
        run_of(found, times, end_of_recording, n - 1, k)
    } else {
        n - 1
    }
}

/// Which runs become segments does not depend on the number of the voice.
pub proof fn lemma_timed_voice<T: PartialOrd>(
    found: Seq<(int, int)>,
    one: usize,
    other: usize,
    times: Seq<T>,
    end_of_recording: T,
    n: int,
)
    ensures
        timed(found, one, times, end_of_recording, n).len() == timed(
            found,
            other,
            times,
            end_of_recording,
            n,
        ).len(),
        forall|k: int|
            0 <= k < timed(found, one, times, end_of_recording, n).len() ==> {
                let a = #[trigger] timed(found, one, times, end_of_recording, n)[k];
                let b = timed(found, other, times, end_of_recording, n)[k];
                a.start == b.start && a.end == b.end && a.speaker_id == one && b.speaker_id == other
            },
    decreases n,
{
    if n > 0 {
        lemma_timed_voice(found, one, other, times, end_of_recording, n - 1);
        let before = timed(found, one, times, end_of_recording, n - 1);
        let others = timed(found, other, times, end_of_recording, n - 1);
        let now = timed(found, one, times, end_of_recording, n);
        let then = timed(found, other, times, end_of_recording, n);
        assert forall|k: int| 0 <= k < now.len() implies {
            let a = #[trigger] now[k];
            let b = then[k];
            a.start == b.start && a.end == b.end && a.speaker_id == one && b.speaker_id == other
        } by {
            if k < before.len() {
                assert(now[k] == before[k]);
                assert(then[k] == others[k]);
            }
        }
    }
}

proof fn lemma_run_of<T: PartialOrd>(
    found: Seq<(int, int)>,
    voice: usize,
    times: Seq<T>,
    end_of_recording: T,
    n: int,
    k: int,
)
    requires
        0 <= n,
        0 <= k < timed(found, voice, times, end_of_recording, n).len(),
    ensures
        0 <= run_of(found, times, end_of_recording, n, k) < n,
        ({
            let run = found[run_of(found, times, end_of_recording, n, k)];
            let segment = timed(found, voice, times, end_of_recording, n)[k];
            &&& segment.start == times[run.0]
            &&& segment.end == clipped(times[run.1], end_of_recording)
            &&& segment.speaker_id == voice
        }),
        forall|l: int|
            0 <= l < k ==> #[trigger] run_of(found, times, end_of_recording, n, l) < run_of(
                found,
                times,
                end_of_recording,
                n,
                k,
            ),
    decreases n,
{
    if n > 0 {
        lemma_timed_voice(found, voice, 0, times, end_of_recording, n - 1);
        let before = timed(found, voice, times, end_of_recording, n - 1);
        if k < before.len() {
            lemma_run_of(found, voice, times, end_of_recording, n - 1, k);
            assert forall|l: int| 0 <= l < k implies #[trigger] run_of(
                found,
                times,
                end_of_recording,
                n,
                l,
            ) < run_of(found, times, end_of_recording, n, k) by {
                assert(run_of(found, times, end_of_recording, n, l) == run_of(
                    found,
                    times,
                    end_of_recording,
                    n - 1,
                    l,
                ));
            }
        } else {
            assert forall|l: int| 0 <= l < k implies #[trigger] run_of(
                found,
                times,
                end_of_recording,
                n,
                l,
            ) < n - 1 by {
                lemma_run_of(found, voice, times, end_of_recording, n - 1, l);
            }
        }
    }
}

/// Segments of one voice come of long runs, and lie further apart than the longest
/// gap that is bridged.
proof fn lemma_voice_segments<T: PartialOrd>(
    active: Seq<bool>,
    voice: usize,
    max_gap: int,
    min_len: int,
    times: Seq<T>,
    end_of_recording: T,
    k: int,
    l: int,
)
    requires
        0 <= k <= l < voice_segments(
            active,
            voice,
            max_gap,
            min_len,
            times,
            end_of_recording,
        ).len(),
    ensures
        ({
            let all = voice_segments(active, voice, max_gap, min_len, times, end_of_recording);
            let frames = bridged(active, max_gap);
            &&& all[l].speaker_id == voice
            &&& is_long(all[l], frames, min_len, times, end_of_recording)
            &&& k < l ==> is_well_before(
                all[k],
                all[l],
                frames,
                max_gap,
                min_len,
                times,
                end_of_recording,
            )
        }),
{
    let frames = bridged(active, max_gap);
    let found = runs(frames, min_len);
    let n = found.len() as int;
    let all = timed(found, voice, times, end_of_recording, n);
    law_runs_are_the_long_stretches(frames, min_len);
    lemma_run_of(found, voice, times, end_of_recording, n, k);
    lemma_run_of(found, voice, times, end_of_recording, n, l);
    let one = found[run_of(found, times, end_of_recording, n, k)];
    let other = found[run_of(found, times, end_of_recording, n, l)];
    assert(found.contains((one.0, one.1)));
    assert(found.contains((other.0, other.1)));
    assert(comes_of(all[k], frames, min_len, times, end_of_recording, one.0, one.1));
    assert(comes_of(all[l], frames, min_len, times, end_of_recording, other.0, other.1));
    if k < l {
        law_bridged_runs_are_apart(active, max_gap, one.0, one.1, other.0, other.1);
    }
}

/// The frames in which a voice counts as active, gaps bridged.
pub open spec fn voice_frames<A: PartialOrd>(
    cells: Seq<FrameActivity<A>>,
    threshold: A,
    max_gap: int,
    voice: int,
) -> Seq<bool> {
    bridged(activity::loud(cells, voice, threshold), max_gap)
}

/// Of the segments found, one voice after the other, each comes of a run of at least
/// `min_len` frames, voices come in order, and two segments of one voice lie more
/// than `max_gap` frames apart.
pub proof fn law_found_segments_are_long_and_apart<A: PartialOrd, T: PartialOrd>(
    cells: Seq<FrameActivity<A>>,
    threshold: A,
    max_gap: int,
    min_len: int,
    times: Seq<T>,
    end_of_recording: T,
    voices: int,
    k: int,
    l: int,
)
    requires
        0 <= voices <= activity::VOICES,
        0 <= k <= l < all_segments(
            cells,
            threshold,
            max_gap,
            min_len,
            times,
            end_of_recording,
            voices,
        ).len(),
    ensures
        ({
            let all = all_segments(
                cells,
                threshold,
                max_gap,
                min_len,
                times,
                end_of_recording,
                voices,
            );
            let frames = voice_frames(cells, threshold, max_gap, all[l].speaker_id as int);
            &&& all[k].speaker_id <= all[l].speaker_id < voices
            &&& is_long(all[l], frames, min_len, times, end_of_recording)
            &&& k < l && all[k].speaker_id == all[l].speaker_id ==> is_well_before(
                all[k],
                all[l],
                frames,
                max_gap,
                min_len,
                times,
                end_of_recording,
            )
        }),
    decreases voices,
{
    if voices > 0 {
        let before = all_segments(
            cells,
            threshold,
            max_gap,
            min_len,
            times,
            end_of_recording,
            voices - 1,
        );
        let voice = (voices - 1) as usize;
        let active = activity::loud(cells, voices - 1, threshold);
        if l < before.len() {
            law_found_segments_are_long_and_apart(
                cells,
                threshold,
                max_gap,
                min_len,
                times,
                end_of_recording,
                voices - 1,
                k,
                l,
            );
        } else {
            let base = before.len() as int;
            if k < before.len() {
                law_found_segments_are_long_and_apart(
                    cells,
                    threshold,
                    max_gap,
                    min_len,
                    times,
                    end_of_recording,
                    voices - 1,
                    k,
                    k,
                );
                lemma_voice_segments(
                    active,
                    voice,
                    max_gap,
                    min_len,
                    times,
                    end_of_recording,
                    l - base,
                    l - base,
                );
            } else {
                lemma_voice_segments(
                    active,
                    voice,
                    max_gap,
                    min_len,
                    times,
                    end_of_recording,
                    k - base,
                    k - base,
                );
                lemma_voice_segments(
                    active,
                    voice,
                    max_gap,
                    min_len,
                    times,
                    end_of_recording,
                    k - base,
                    l - base,
                );
            }
        }
    }
}

/// Frame `at` lies between two active frames that are no more than `max_gap` frames
/// apart.
pub open spec fn lies_between(active: Seq<bool>, max_gap: int, at: int) -> bool {
    exists|p: int, q: int|
        #![trigger active[p], active[q]]
        0 <= p < at < q < active.len() && active[p] && active[q] && q - p - 1 <= max_gap
}

/// The last active frame before `at`.
spec fn last_active(active: Seq<bool>, at: int) -> int
    decreases at,
{
    if 0 < at <= active.len() && !active[at - 1] {
        last_active(active, at - 1)
    } else {
        at - 1
    }
}

proof fn lemma_last_active(active: Seq<bool>, from: int, at: int)
    requires
        0 <= from < at <= active.len(),
        active[from],
    ensures
        from <= last_active(active, at) < at,
        active[last_active(active, at)],
        forall|k: int| last_active(active, at) < k < at ==> !active[k],
    decreases at - from,
{
    if !active[at - 1] {
        lemma_last_active(active, from, at - 1);
    }
}

/// A frame counts as active exactly when the voice is heard in it, or when it lies
/// between two frames in which the voice is heard and that are no further apart than
/// the longest gap.
pub proof fn law_frames_between_near_ones_are_active(active: Seq<bool>, max_gap: int, at: int)
    requires
        0 <= at < active.len(),
    ensures
        bridged(active, max_gap).len() == active.len(),
        bridged(active, max_gap)[at] <==> active[at] || lies_between(active, max_gap, at),
{
    if !active[at] {
        if in_short_gap(active, max_gap, at) {
            let (s, e) = choose|s: int, e: int|
                #![trigger is_gap(active, s, e)]
                is_gap(active, s, e) && e - s <= max_gap && s <= at < e;
            assert(active[s - 1] && active[e]);
        }
        if lies_between(active, max_gap, at) {
            let (p, q) = choose|p: int, q: int|
                #![trigger active[p], active[q]]
                0 <= p < at < q < active.len() && active[p] && active[q] && q - p - 1 <= max_gap;
            lemma_last_active(active, p, at);
            lemma_next_active(active, at, q);
            let s = last_active(active, at) + 1;
            let e = next_active(active, at);
            assert(active[s - 1]);
            assert forall|k: int| s <= k < e implies !active[k] by {
                if k < at {
                    assert(last_active(active, at) < k);
                }
            }
            assert(is_gap(active, s, e));
            assert(in_short_gap(active, max_gap, at));
        }
    }
}

/// Every stretch of active frames that is long enough, starts before the end of the
/// recording and cannot be extended becomes a segment: from the time of its first frame
/// to that of the frame after its last, or to the end of the recording if that is
/// earlier.
pub proof fn law_every_long_stretch_is_found<A: PartialOrd, T: PartialOrd>(
    cells: Seq<FrameActivity<A>>,
    threshold: A,
    max_gap: int,
    min_len: int,
    times: Seq<T>,
    end_of_recording: T,
    voice: usize,
    first: int,
    after: int,
    end: T,
)
    requires
        voice < 3,
        0 <= first < after <= cells.len(),
        forall|k: int|
            first <= k < after ==> bridged(
                activity::loud(cells, voice as int, threshold),
                max_gap,
            )[k],
        first > 0 ==> !bridged(activity::loud(cells, voice as int, threshold), max_gap)[first - 1],
        after < cells.len() ==> !bridged(
            activity::loud(cells, voice as int, threshold),
            max_gap,
        )[after],
        after - first >= min_len,
        scalar::gt(times[after], end_of_recording) ==> end == end_of_recording,
        !scalar::gt(times[after], end_of_recording) ==> end == times[after],
        scalar::lt(times[first], end),
    ensures
        all_segments(
            cells,
            threshold,
            max_gap,
            min_len,
            times,
            end_of_recording,
            3,
        ).contains(DiarizationSegment { start: times[first], end, speaker_id: voice }),
{
    let active = activity::loud(cells, voice as int, threshold);
    let frames = bridged(active, max_gap);
    let found = runs(frames, min_len);
    law_runs_are_the_long_stretches(frames, min_len);
    assert(is_run(frames, first, after));
    assert(found.contains((first, after)));
    let r = choose|r: int| 0 <= r < found.len() && found[r] == (first, after);
    lemma_timed_has(found, voice, times, end_of_recording, found.len() as int, r);
    let segment = DiarizationSegment { start: times[first], end, speaker_id: voice };
    let part = voice_segments(active, voice, max_gap, min_len, times, end_of_recording);
    assert(part.contains(segment));
    let k = choose|k: int| 0 <= k < part.len() && part[k] == segment;
    reveal_with_fuel(all_segments, 4);
    let all = all_segments(cells, threshold, max_gap, min_len, times, end_of_recording, 3);
    let before = all_segments(
        cells,
        threshold,
        max_gap,
        min_len,
        times,
        end_of_recording,
        voice as int,
    );
    assert(all[before.len() + k] == segment);
}

proof fn lemma_timed_has<T: PartialOrd>(
    found: Seq<(int, int)>,
    voice: usize,
    times: Seq<T>,
    end_of_recording: T,
    n: int,
    r: int,
)
    requires
        0 <= r < n,
        scalar::lt(times[found[r].0], clipped(times[found[r].1], end_of_recording)),
    ensures
        timed(found, voice, times, end_of_recording, n).contains(
            DiarizationSegment {
                start: times[found[r].0],
                end: clipped(times[found[r].1], end_of_recording),
                speaker_id: voice,
            },
        ),
    decreases n,
{
    let before = timed(found, voice, times, end_of_recording, n - 1);
    let now = timed(found, voice, times, end_of_recording, n);
    let segment = DiarizationSegment {
        start: times[found[r].0],
        end: clipped(times[found[r].1], end_of_recording),
        speaker_id: voice,
    };
    if r < n - 1 {
        lemma_timed_has(found, voice, times, end_of_recording, n - 1, r);
        let k = choose|k: int| 0 <= k < before.len() && before[k] == segment;
        assert(now[k] == segment);
    } else {
        assert(now[before.len() as int] == segment);
    }
}

/// A run that is found is a stretch of active frames that is long enough and cannot be
/// extended, and every such stretch is found.
pub proof fn law_runs_cannot_be_extended(
    active: Seq<bool>,
    min_len: int,
    first: int,
    after: int,
)
    ensures
        runs(active, min_len).contains((first, after)) <==> {
            &&& 0 <= first < after <= active.len()
            &&& forall|k: int| first <= k < after ==> active[k]
            &&& first > 0 ==> !active[first - 1]
            &&& after < active.len() ==> !active[after]
            &&& after - first >= min_len
        },
{
    law_runs_are_the_long_stretches(active, min_len);
    assert(runs(active, min_len).contains((first, after)) <==> is_run(active, first, after)
        && after - first >= min_len);
}

/// Of the segments of one voice, the later ones start later.
proof fn lemma_timed_by_start<T: PartialOrd>(
    of: spec_fn(T) -> real,
    found: Seq<(int, int)>,
    voice: usize,
    times: Seq<T>,
    end_of_recording: T,
    n: int,
)
    requires
        0 <= n <= found.len(),
        forall|i: int, j: int|
            0 <= i < j < times.len() ==> #[trigger] of(times[i]) < #[trigger] of(times[j]),
        forall|r: int| 0 <= r < found.len() ==> 0 <= (#[trigger] found[r]).0 < times.len(),
        forall|q: int, r: int|
            0 <= q < r < found.len() ==> (#[trigger] found[q]).0 < (#[trigger] found[r]).0,
    ensures
        ({
            let all = timed(found, voice, times, end_of_recording, n);
            &&& forall|k: int| 0 <= k < all.len() ==> (#[trigger] all[k]).speaker_id == voice
            &&& forall|k: int|
                0 <= k < all.len() && n < found.len() ==> of((#[trigger] all[k]).start) < of(
                    times[found[n].0],
                )
            &&& forall|k: int, l: int|
                0 <= k < l < all.len() ==> of((#[trigger] all[k]).start) < of(
                    (#[trigger] all[l]).start,
                )
        }),
    decreases n,
{
    if n > 0 {
        lemma_timed_by_start(of, found, voice, times, end_of_recording, n - 1);
        let before = timed(found, voice, times, end_of_recording, n - 1);
        let all = timed(found, voice, times, end_of_recording, n);
        let start = times[found[n - 1].0];
        assert forall|k: int| 0 <= k < all.len() && n < found.len() implies of(
            (#[trigger] all[k]).start,
        ) < of(times[found[n].0]) by {
            assert(found[n - 1].0 < found[n].0);
            assert(of(start) < of(times[found[n].0]));
            if k < before.len() {
                assert(all[k] == before[k]);
                assert(of(before[k].start) < of(start));
            }
        }
        assert forall|k: int, l: int| 0 <= k < l < all.len() implies of((#[trigger] all[k]).start)
            < of((#[trigger] all[l]).start) by {
            assert(all[k] == before[k]);
            if l < before.len() {
                assert(all[l] == before[l]);
            } else {
                assert(of(before[k].start) < of(start));
            }
        }
        assert forall|k: int| 0 <= k < all.len() implies (#[trigger] all[k]).speaker_id
            == voice by {
            if k < before.len() {
                assert(all[k] == before[k]);
            }
        }
    }
}

/// Lower voices come first, and of the segments of one voice those that start earlier.
pub proof fn lemma_segments_by_voice<A: PartialOrd, T: PartialOrd>(
    of: spec_fn(T) -> real,
    cells: Seq<FrameActivity<A>>,
    threshold: A,
    max_gap: int,
    min_len: int,
    times: Seq<T>,
    end_of_recording: T,
    voices: int,
)
    requires
        0 <= voices <= 3,
        times.len() == cells.len() + 1,
        forall|i: int, j: int|
            0 <= i < j < times.len() ==> #[trigger] of(times[i]) < #[trigger] of(times[j]),
    ensures
        ({
            let all = all_segments(
                cells,
                threshold,
                max_gap,
                min_len,
                times,
                end_of_recording,
                voices,
            );
            &&& forall|k: int| 0 <= k < all.len() ==> (#[trigger] all[k]).speaker_id < voices
            &&& forall|k: int, l: int|
                0 <= k < l < all.len() ==> (#[trigger] all[k]).speaker_id < (
                #[trigger] all[l]).speaker_id || (all[k].speaker_id == all[l].speaker_id && of(
                    all[k].start,
                ) < of(all[l].start))
        }),
    decreases voices,
{
    if voices > 0 {
        lemma_segments_by_voice(
            of,
            cells,
            threshold,
            max_gap,
            min_len,
            times,
            end_of_recording,
            voices - 1,
        );
        let before = all_segments(
            cells,
            threshold,
            max_gap,
            min_len,
            times,
            end_of_recording,
            voices - 1,
        );
        let all = all_segments(
            cells,
            threshold,
            max_gap,
            min_len,
            times,
            end_of_recording,
            voices,
        );
        let active = activity::loud(cells, voices - 1, threshold);
        let found = runs(bridged(active, max_gap), min_len);
        law_runs_are_the_long_stretches(bridged(active, max_gap), min_len);
        assert forall|r: int| 0 <= r < found.len() implies 0 <= (#[trigger] found[r]).0
            < times.len() by {
            assert(found.contains((found[r].0, found[r].1)));
        }
        assert forall|q: int, r: int| 0 <= q < r < found.len() implies (#[trigger] found[q]).0 < (
        #[trigger] found[r]).0 by {
            assert(found.contains((found[q].0, found[q].1)));
            assert(found[q].1 < found[r].0);
        }
        lemma_timed_by_start(
            of,
            found,
            (voices - 1) as usize,
            times,
            end_of_recording,
            found.len() as int,
        );
        let new = timed(
            found,
            (voices - 1) as usize,
            times,
            end_of_recording,
            found.len() as int,
        );
        assert(all == before + new);
        assert forall|k: int| 0 <= k < all.len() implies (#[trigger] all[k]).speaker_id
            < voices by {
            if k < before.len() {
                assert(all[k] == before[k]);
            } else {
                assert(all[k] == new[k - before.len()]);
            }
        }
        assert forall|k: int, l: int| 0 <= k < l < all.len() implies (
        #[trigger] all[k]).speaker_id < (#[trigger] all[l]).speaker_id || (all[k].speaker_id
            == all[l].speaker_id && of(all[k].start) < of(all[l].start)) by {
            if l < before.len() {
                assert(all[k] == before[k] && all[l] == before[l]);
            } else if k < before.len() {
                assert(all[k] == before[k] && all[l] == new[l - before.len()]);
            } else {
                assert(all[k] == new[k - before.len()] && all[l] == new[l - before.len()]);
            }
        }
    }
}

} // verus!
