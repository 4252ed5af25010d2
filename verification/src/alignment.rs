//! Telling which speaker said each line of a transcript.

use crate::exact;
use crate::scalar;
use crate::scalar::{maximum, minimum};
use crate::text;
use crate::text::{concatenated, decimal_text};
use crate::types::DiarizationSegment;
use core::ops::Sub;
use vstd::prelude::*;
#[allow(unused_imports)]
use vstd::std_specs::ops::SubSpec;

verus! {

/// A line of a transcript, with the times between which it was spoken where they
/// are known.
#[derive(Debug)]
pub struct Transcript<T> {
    pub id: String,
    pub audio_start_time: Option<T>,
    pub audio_end_time: Option<T>,
}

/// The speaker of a line of a transcript, if one could be found.
#[derive(Debug)]
pub struct SpeakerUpdate {
    pub id: String,
    pub speaker: Option<String>,
}

/// For how long a segment and the stretch from `start` to `end` coincide; less
/// than nothing if they lie apart.
pub open spec fn overlap<T: PartialOrd + Sub<Output = T>>(
    segment: DiarizationSegment<T>,
    start: T,
    end: T,
) -> T {
    scalar::smaller(end, segment.end).sub_spec(scalar::larger(start, segment.start))
}

/// The subtraction behind `overlap` stays within `T`.
pub open spec fn overlap_fits<T: PartialOrd + Sub<Output = T>>(
    segment: DiarizationSegment<T>,
    start: T,
    end: T,
) -> bool {
    scalar::smaller(end, segment.end).sub_req(scalar::larger(start, segment.start))
}

/// Which of the first `n` segments coincides longest with a stretch, and for how
/// long: the first of them, if several do, and none if none coincides for longer
/// than `zero`.
pub open spec fn longest_overlap<T: PartialOrd + Sub<Output = T>>(
    segments: Seq<DiarizationSegment<T>>,
    start: T,
    end: T,
    zero: T,
    n: int,
) -> (Option<int>, T)
    decreases n,
{
    if n <= 0 {
        (None, zero)
    } else {
        let sofar = longest_overlap(segments, start, end, zero, n - 1);
        let found = overlap(segments[n - 1], start, end);
        if scalar::gt(found, sofar.1) {
            (Some(n - 1), found)
        } else {
            sofar
        }
    }
}

/// The name of a speaker: the first is `Speaker 1`.
pub open spec fn speaker_name(id: usize) -> Seq<char> {
    "Speaker "@ + text::decimal((id + 1) as nat)
}

/// The name of a speaker: the first is `Speaker 1`.
pub fn speaker_label(id: usize) -> (label: String)
    requires
        id < usize::MAX,
    ensures
        label@ == speaker_name(id),
{
    let number: String = decimal_text(id + 1);
    concatenated("Speaker ", number.as_str())
}

/// The name of the speaker whose segment coincides longest with the stretch from
/// `start` to `end`, if any does.
pub open spec fn speaker_of<T: PartialOrd + Sub<Output = T>>(
    segments: Seq<DiarizationSegment<T>>,
    start: T,
    end: T,
    zero: T,
) -> Option<Seq<char>> {
    match longest_overlap(segments, start, end, zero, segments.len() as int).0 {
        Some(k) => Some(speaker_name(segments[k].speaker_id)),
        None => None,
    }
}

/// A text that may be missing, as a sequence of characters.
pub open spec fn text_of(text: Option<String>) -> Option<Seq<char>> {
    match text {
        Some(t) => Some(t@),
        None => None,
    }
}

/// Finds the speaker whose segment coincides longest with the stretch from
/// `start` to `end`.
pub fn best_speaker<T: Copy + PartialOrd + Sub<Output = T>>(
    segments: &Vec<DiarizationSegment<T>>,
    start: T,
    end: T,
    zero: T,
) -> (speaker: Option<String>)
    requires
        scalar::ordered::<T>(),
        T::obeys_sub_spec(),
        forall|k: int|
            0 <= k < segments@.len() ==> {
                &&& overlap_fits(#[trigger] segments@[k], start, end)
                &&& segments@[k].speaker_id < usize::MAX
            },
    ensures
        text_of(speaker) == speaker_of(segments@, start, end, zero),
{
    let mut best: Option<usize> = None;
    let mut longest: T = zero;
    let mut next: usize = 0;
    while next < segments.len()
        invariant
            next <= segments@.len(),
            scalar::ordered::<T>(),
            T::obeys_sub_spec(),
            forall|k: int|
                0 <= k < segments@.len() ==> {
                    &&& overlap_fits(#[trigger] segments@[k], start, end)
                    &&& segments@[k].speaker_id < usize::MAX
                },
            longest == longest_overlap(segments@, start, end, zero, next as int).1,
            match best {
                Some(k) => k < next && longest_overlap(segments@, start, end, zero, next as int).0
                    == Some(k as int),
                None => longest_overlap(segments@, start, end, zero, next as int).0 is None,
            },
        decreases segments@.len() - next,
    {
        let segment: DiarizationSegment<T> = segments[next];
        proof {
            assert(overlap_fits(segments@[next as int], start, end));
        }
        let overlap_start: T = maximum(start, segment.start);
        let overlap_end: T = minimum(end, segment.end);
        let found: T = overlap_end - overlap_start;
        if found > longest {
            longest = found;
            best = Some(next);
        }
        next = next + 1;
    }
    match best {
        Some(k) => Some(speaker_label(segments[k].speaker_id)),
        None => None,
    }
}

/// A time, or `zero` where it is not known.
pub open spec fn known<T>(time: Option<T>, zero: T) -> T {
    match time {
        Some(t) => t,
        None => zero,
    }
}

/// Finds the speaker of each line of a transcript. A time that is not known
/// counts as `zero`.
pub fn align<T: Copy + PartialOrd + Sub<Output = T>>(
    transcripts: &Vec<Transcript<T>>,
    segments: &Vec<DiarizationSegment<T>>,
    zero: T,
) -> (updates: Vec<SpeakerUpdate>)
    requires
        scalar::ordered::<T>(),
        T::obeys_sub_spec(),
        forall|i: int, k: int|
            0 <= i < transcripts@.len() && 0 <= k < segments@.len() ==> overlap_fits(
                #[trigger] segments@[k],
                known((#[trigger] transcripts@[i]).audio_start_time, zero),
                known(transcripts@[i].audio_end_time, zero),
            ),
        forall|k: int|
            0 <= k < segments@.len() ==> (#[trigger] segments@[k]).speaker_id < usize::MAX,
    ensures
        updates@.len() == transcripts@.len(),
        forall|i: int|
            0 <= i < transcripts@.len() ==> {
                let line = transcripts@[i];
                &&& (#[trigger] updates@[i]).id@ == line.id@
                &&& text_of(updates@[i].speaker) == speaker_of(
                    segments@,
                    known(line.audio_start_time, zero),
                    known(line.audio_end_time, zero),
                    zero,
                )
            },
{
    let mut updates: Vec<SpeakerUpdate> = Vec::new();
    let mut i: usize = 0;
    while i < transcripts.len()
        invariant
            i <= transcripts@.len(),
            scalar::ordered::<T>(),
            T::obeys_sub_spec(),
            forall|i: int, k: int|
                0 <= i < transcripts@.len() && 0 <= k < segments@.len() ==> overlap_fits(
                    #[trigger] segments@[k],
                    known((#[trigger] transcripts@[i]).audio_start_time, zero),
                    known(transcripts@[i].audio_end_time, zero),
                ),
            forall|k: int|
                0 <= k < segments@.len() ==> (#[trigger] segments@[k]).speaker_id < usize::MAX,
            updates@.len() == i,
            forall|j: int|
                0 <= j < i ==> {
                    let line = transcripts@[j];
                    &&& (#[trigger] updates@[j]).id@ == line.id@
                    &&& text_of(updates@[j].speaker) == speaker_of(
                        segments@,
                        known(line.audio_start_time, zero),
                        known(line.audio_end_time, zero),
                        zero,
                    )
                },
        decreases transcripts@.len() - i,
    {
        let line: &Transcript<T> = &transcripts[i];
        let start: T = match line.audio_start_time {
            Some(t) => t,
            None => zero,
        };
        let end: T = match line.audio_end_time {
            Some(t) => t,
            None => zero,
        };
        let speaker: Option<String> = best_speaker(segments, start, end, zero);
        updates.push(SpeakerUpdate { id: line.id.clone(), speaker });
        i = i + 1;
    }
    updates
}

/// The speaker found is the one whose segment coincides longest with the stretch,
/// the earliest of those segments where several do; no speaker is found exactly
/// when no segment coincides with it for longer than `zero`.
pub proof fn law_longest_overlap_wins<T: PartialOrd + Sub<Output = T>>(
    segments: Seq<DiarizationSegment<T>>,
    start: T,
    end: T,
    zero: T,
    values: Set<T>,
)
    requires
        scalar::linear(values),
        values.contains(zero),
        forall|k: int|
            0 <= k < segments.len() ==> values.contains(
                overlap(#[trigger] segments[k], start, end),
            ),
    ensures
        match longest_overlap(segments, start, end, zero, segments.len() as int).0 {
            Some(best) => {
                &&& 0 <= best < segments.len()
                &&& scalar::gt(overlap(segments[best], start, end), zero)
                &&& forall|k: int|
                    0 <= k < segments.len() ==> scalar::le(
                        overlap(#[trigger] segments[k], start, end),
                        overlap(segments[best], start, end),
                    )
                &&& forall|k: int|
                    0 <= k < best ==> scalar::lt(
                        overlap(#[trigger] segments[k], start, end),
                        overlap(segments[best], start, end),
                    )
            },
            None => forall|k: int|
                0 <= k < segments.len() ==> scalar::le(
                    overlap(#[trigger] segments[k], start, end),
                    zero,
                ),
        },
{
    lemma_longest_upto(segments, start, end, zero, values, segments.len() as int);
}

proof fn lemma_longest_upto<T: PartialOrd + Sub<Output = T>>(
    segments: Seq<DiarizationSegment<T>>,
    start: T,
    end: T,
    zero: T,
    values: Set<T>,
    n: int,
)
    requires
        scalar::linear(values),
        values.contains(zero),
        forall|k: int|
            0 <= k < segments.len() ==> values.contains(
                overlap(#[trigger] segments[k], start, end),
            ),
        0 <= n <= segments.len(),
    ensures
        ({
            let (found, most) = longest_overlap(segments, start, end, zero, n);
            &&& values.contains(most)
            &&& scalar::le(zero, most)
            &&& forall|k: int|
                0 <= k < n ==> scalar::le(overlap(#[trigger] segments[k], start, end), most)
            &&& match found {
                Some(best) => {
                    &&& 0 <= best < n
                    &&& most == overlap(segments[best], start, end)
                    &&& scalar::gt(most, zero)
                    &&& forall|k: int|
                        0 <= k < best ==> scalar::lt(
                            overlap(#[trigger] segments[k], start, end),
                            most,
                        )
                },
                None => most == zero,
            }
        }),
    decreases n,
{
    if n > 0 {
        lemma_longest_upto(segments, start, end, zero, values, n - 1);
        let (found, most) = longest_overlap(segments, start, end, zero, n - 1);
        let new = overlap(segments[n - 1], start, end);
        assert(values.contains(overlap(segments[n - 1], start, end)));
        assert(scalar::le(new, most) == !scalar::lt(most, new));
        assert(scalar::le(most, new) == !scalar::lt(new, most));
        assert(scalar::le(new, new));
        if scalar::gt(new, most) {
            assert(scalar::le(zero, new));
            assert(scalar::lt(zero, new)) by {
                if scalar::le(new, zero) {
                    assert(scalar::le(new, most));
                }
                assert(scalar::le(new, zero) == !scalar::lt(zero, new));
            }
            assert forall|k: int| 0 <= k < n - 1 implies scalar::lt(
                overlap(#[trigger] segments[k], start, end),
                new,
            ) && scalar::le(overlap(segments[k], start, end), new) by {
                let old = overlap(segments[k], start, end);
                assert(scalar::le(old, most));
                if scalar::le(new, old) {
                    assert(scalar::le(new, most));
                }
                assert(scalar::le(new, old) == !scalar::lt(old, new));
            }
        }
    } else {
        assert(scalar::le(zero, zero));
    }
}

/// For how long a segment and the stretch between two times coincide: from the later of
/// the starts to the earlier of the ends. Less than nothing if they lie apart.
pub open spec fn shared_time<T>(
    of: spec_fn(T) -> real,
    segment: DiarizationSegment<T>,
    start: real,
    end: real,
) -> real {
    exact::minimum(end, of(segment.end)) - exact::maximum(start, of(segment.start))
}

/// Segment `k` coincides with a stretch, and no segment does so for longer, nor an
/// earlier one for as long.
pub open spec fn coincides_longest<T>(
    of: spec_fn(T) -> real,
    segments: Seq<DiarizationSegment<T>>,
    start: real,
    end: real,
    k: int,
) -> bool {
    let longest = shared_time(of, segments[k], start, end);
    &&& 0 <= k < segments.len()
    &&& longest > 0real
    &&& forall|j: int|
        0 <= j < segments.len() ==> shared_time(of, #[trigger] segments[j], start, end) <= longest
    &&& forall|j: int|
        0 <= j < k ==> shared_time(of, #[trigger] segments[j], start, end) < longest
}

/// The name is `Speaker ` with a number behind it.
pub open spec fn is_numbered(name: Seq<char>, number: int) -> bool {
    &&& name.len() > 8
    &&& name.take(8) == seq!['S', 'p', 'e', 'a', 'k', 'e', 'r', ' ']
    &&& text::is_plain_number(name.skip(8))
    &&& text::number_in(name.skip(8)) == number
}

/// The speaker has the number of the segment that coincides longest with a stretch,
/// counted from one; there is none if no segment coincides with it.
pub open spec fn is_named<T>(
    of: spec_fn(T) -> real,
    segments: Seq<DiarizationSegment<T>>,
    start: real,
    end: real,
    speaker: Option<Seq<char>>,
) -> bool {
    match speaker {
        Some(name) => exists|k: int| #[trigger]
            coincides_longest(of, segments, start, end, k) && is_numbered(
                name,
                segments[k].speaker_id + 1,
            ),
        None => forall|k: int|
            0 <= k < segments.len() ==> shared_time(of, #[trigger] segments[k], start, end)
                <= 0real,
    }
}

/// The name of a speaker is `Speaker `, and behind it one more than the number of the
/// speaker.
pub proof fn law_names_count_from_one(id: usize)
    ensures
        is_numbered(speaker_name(id), id + 1),
{
    reveal_strlit("Speaker ");
    let name = speaker_name(id);
    let digits = text::decimal((id + 1) as nat);
    text::law_decimal_reads_back((id + 1) as nat);
    assert(name.skip(8) =~= digits);
    assert(name.take(8) =~= seq!['S', 'p', 'e', 'a', 'k', 'e', 'r', ' ']);
}

/// Two speakers have the same name only if they have the same number.
pub proof fn law_names_tell_speakers_apart(one: usize, other: usize)
    ensures
        speaker_name(one) == speaker_name(other) <==> one == other,
{
    law_names_count_from_one(one);
    law_names_count_from_one(other);
}

proof fn lemma_named_by_longest_overlap<T: PartialOrd + Sub<Output = T>>(
    of: spec_fn(T) -> real,
    segments: Seq<DiarizationSegment<T>>,
    start: T,
    end: T,
    zero: T,
)
    requires
        exact::subtracts(of),
        exact::compares(of),
        of(zero) == 0real,
    ensures
        is_named(of, segments, of(start), of(end), speaker_of(segments, start, end, zero)),
{
    exact::lemma_compared_in_one_line(of);
    law_longest_overlap_wins(segments, start, end, zero, Set::<T>::full());
    assert forall|k: int| 0 <= k < segments.len() implies shared_time(
        of,
        #[trigger] segments[k],
        of(start),
        of(end),
    ) == of(overlap(segments[k], start, end)) by {
        exact::law_larger_and_smaller_are_exact(of, start, segments[k].start);
        exact::law_larger_and_smaller_are_exact(of, end, segments[k].end);
    }
    match longest_overlap(segments, start, end, zero, segments.len() as int).0 {
        Some(k) => {
            law_names_count_from_one(segments[k].speaker_id);
            assert(coincides_longest(of, segments, of(start), of(end), k));
        },
        None => {},
    }
}

/// A line is given to the speaker of the first segment that coincides with it longest,
/// under the name that has one more than the number of that speaker; it is given to
/// nobody if it coincides with no segment.
pub proof fn law_lines_are_named_by_their_segments<T: Copy + PartialOrd + Sub<Output = T>>(
    of: spec_fn(T) -> real,
    segments: &Vec<DiarizationSegment<T>>,
    start: T,
    end: T,
    zero: T,
    speaker: Option<String>,
)
    requires
        exact::subtracts(of),
        exact::compares(of),
        of(zero) == 0real,
        call_ensures(best_speaker::<T>, (segments, start, end, zero), speaker),
    ensures
        is_named(of, segments@, of(start), of(end), text_of(speaker)),
{
    lemma_named_by_longest_overlap(of, segments@, start, end, zero);
}

/// Two lines get the same name exactly when the segments that coincide with them longest
/// have the same speaker.
pub proof fn law_one_speaker_has_one_name<T: Copy + PartialOrd + Sub<Output = T>>(
    of: spec_fn(T) -> real,
    segments: &Vec<DiarizationSegment<T>>,
    line: (T, T),
    other: (T, T),
    zero: T,
    speaker: Option<String>,
    again: Option<String>,
    k: int,
    l: int,
)
    requires
        exact::subtracts(of),
        exact::compares(of),
        of(zero) == 0real,
        call_ensures(best_speaker::<T>, (segments, line.0, line.1, zero), speaker),
        call_ensures(best_speaker::<T>, (segments, other.0, other.1, zero), again),
        coincides_longest(of, segments@, of(line.0), of(line.1), k),
        coincides_longest(of, segments@, of(other.0), of(other.1), l),
    ensures
        speaker matches Some(name) && again matches Some(renamed) && (name@ == renamed@
            <==> segments@[k].speaker_id == segments@[l].speaker_id),
{
    lemma_named_by_longest_overlap(of, segments@, line.0, line.1, zero);
    lemma_named_by_longest_overlap(of, segments@, other.0, other.1, zero);
    lemma_one_coincides_longest(of, segments@, of(line.0), of(line.1), k);
    lemma_one_coincides_longest(of, segments@, of(other.0), of(other.1), l);
    law_names_tell_speakers_apart(segments@[k].speaker_id, segments@[l].speaker_id);
    lemma_name_has_one_number(speaker->0@, segments@[k].speaker_id);
    lemma_name_has_one_number(again->0@, segments@[l].speaker_id);
}

proof fn lemma_one_coincides_longest<T>(
    of: spec_fn(T) -> real,
    segments: Seq<DiarizationSegment<T>>,
    start: real,
    end: real,
    k: int,
)
    requires
        coincides_longest(of, segments, start, end, k),
    ensures
        forall|j: int| #[trigger] coincides_longest(of, segments, start, end, j) ==> j == k,
{
    assert forall|j: int| #[trigger] coincides_longest(of, segments, start, end, j) implies j
        == k by {
        assert(shared_time(of, segments[j], start, end) <= shared_time(
            of,
            segments[k],
            start,
            end,
        ));
    }
}

/// Only one text is the name of a speaker with a number.
proof fn lemma_name_has_one_number(name: Seq<char>, id: usize)
    requires
        is_numbered(name, id + 1),
    ensures
        name == speaker_name(id),
{
    law_names_count_from_one(id);
    let other = speaker_name(id);
    text::lemma_plain_numbers_are_unique(name.skip(8), other.skip(8));
    assert(name =~= name.take(8) + name.skip(8));
    assert(other =~= other.take(8) + other.skip(8));
}

/// A time of a line; one that is not known is the start of the recording.
pub open spec fn time_of<T>(of: spec_fn(T) -> real, time: Option<T>) -> real {
    match time {
        Some(t) => of(t),
        None => 0real,
    }
}

/// Every line of a transcript keeps its place and its id, and is given to the speaker of
/// the first segment that coincides with it longest.
pub proof fn law_every_line_is_named_in_its_place<T: Copy + PartialOrd + Sub<Output = T>>(
    of: spec_fn(T) -> real,
    transcripts: &Vec<Transcript<T>>,
    segments: &Vec<DiarizationSegment<T>>,
    zero: T,
    updates: Vec<SpeakerUpdate>,
)
    requires
        exact::subtracts(of),
        exact::compares(of),
        of(zero) == 0real,
        call_ensures(align::<T>, (transcripts, segments, zero), updates),
    ensures
        updates@.len() == transcripts@.len(),
        forall|i: int|
            0 <= i < transcripts@.len() ==> (#[trigger] updates@[i]).id@ == transcripts@[i].id@
                && is_named(
                of,
                segments@,
                time_of(of, transcripts@[i].audio_start_time),
                time_of(of, transcripts@[i].audio_end_time),
                text_of(updates@[i].speaker),
            ),
{
    assert forall|i: int| 0 <= i < transcripts@.len() implies (#[trigger] updates@[i]).id@
        == transcripts@[i].id@ && is_named(
        of,
        segments@,
        time_of(of, transcripts@[i].audio_start_time),
        time_of(of, transcripts@[i].audio_end_time),
        text_of(updates@[i].speaker),
    ) by {
        lemma_named_by_longest_overlap(
            of,
            segments@,
            known(transcripts@[i].audio_start_time, zero),
            known(transcripts@[i].audio_end_time, zero),
            zero,
        );
    }
}

} // verus!
