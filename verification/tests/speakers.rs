use diarization::alignment::{align, best_speaker, speaker_label, Transcript};
use diarization::clustering::Units;
use diarization::diarizer::{merge_segments, resolve_speakers, usable_range, EmbeddedSpeech};
use diarization::order::sort_by_start;
use diarization::scalar::{maximum, minimum};
use diarization::text::decimal_text;
use diarization::types::{DiarizationError, DiarizationSegment, ShapeFault, SpeakerEmbedding};

fn segment(start: f64, end: f64, speaker_id: usize) -> DiarizationSegment<f64> {
    DiarizationSegment { start, end, speaker_id }
}

fn plain(segments: &[DiarizationSegment<f64>]) -> Vec<(f64, f64, usize)> {
    segments.iter().map(|s| (s.start, s.end, s.speaker_id)).collect()
}

#[test]
fn sorting_keeps_the_order_of_equal_starts() {
    let mixed = vec![segment(2.0, 3.0, 0), segment(1.0, 9.0, 1), segment(2.0, 1.0, 2), segment(0.5, 0.6, 3)];
    assert_eq!(
        plain(&sort_by_start(&mixed)),
        vec![(0.5, 0.6, 3), (1.0, 9.0, 1), (2.0, 3.0, 0), (2.0, 1.0, 2)]
    );
    assert!(sort_by_start(&Vec::<DiarizationSegment<f64>>::new()).is_empty());
}

#[test]
fn contiguous_segments_of_a_speaker_are_joined() {
    let segments = vec![
        segment(0.0, 1.0, 0),
        segment(1.005, 2.0, 0), // within the tolerance
        segment(2.02, 3.0, 0),  // too late
        segment(2.5, 2.75, 0),  // inside
        segment(2.9, 4.0, 1),   // another speaker
        segment(4.0, 5.0, 1),
    ];
    let merged = merge_segments(&segments, 0.01);
    assert_eq!(plain(&merged), vec![(0.0, 2.0, 0), (2.02, 3.0, 0), (2.9, 5.0, 1)]);
    // Joining twice is joining once.
    assert_eq!(plain(&merge_segments(&merged, 0.01)), plain(&merged));
    // Every segment lies within a joined one.
    for s in &segments {
        assert!(merged
            .iter()
            .any(|m| m.speaker_id == s.speaker_id && m.start <= s.start && s.end <= m.end));
    }
}

#[test]
fn only_the_segment_before_is_continued() {
    // The other speaker stands between.
    let segments = vec![segment(0.0, 2.0, 0), segment(0.5, 1.0, 1), segment(1.0, 3.0, 0)];
    assert_eq!(plain(&merge_segments(&segments, 0.01)), plain(&segments));
}

#[test]
fn ranges_outside_the_recording_are_not_usable() {
    assert!(usable_range(0, 10, 10));
    assert!(!usable_range(0, 11, 10));
    assert!(!usable_range(5, 5, 10));
    assert!(!usable_range(6, 5, 10));
    assert!(!usable_range(10, 10, 10));
    assert!(!usable_range(0, 0, 0));
}

#[test]
fn stretches_without_embedding_are_left_out() {
    let mut speech: EmbeddedSpeech<f64, usize> = EmbeddedSpeech::new();
    speech.record(segment(0.0, 1.0, 2), Ok(SpeakerEmbedding { data: 7 }));
    speech.record(segment(1.0, 2.0, 2), Err(DiarizationError::Shape(ShapeFault::OutOfBounds)));
    speech.record(segment(2.0, 3.0, 1), Ok(SpeakerEmbedding { data: 8 }));
    assert_eq!(speech.spans, vec![(0.0, 1.0), (2.0, 3.0)]);
    assert_eq!(speech.embeddings.len(), 2);
    assert_eq!(speech.embeddings[1].data, 8);
}

#[test]
fn speech_becomes_segments_with_speakers() {
    let mut speech: EmbeddedSpeech<f64, f32> = EmbeddedSpeech::new();
    // Out of order; voices 1.0 and 0.0.
    speech.record(segment(5.0, 6.0, 0), Ok(SpeakerEmbedding { data: 1.0 }));
    speech.record(segment(0.0, 2.0, 0), Ok(SpeakerEmbedding { data: 0.0 }));
    speech.record(segment(2.0, 3.0, 1), Ok(SpeakerEmbedding { data: 0.0 }));
    let found = resolve_speakers(
        &speech,
        0.01,
        0.8f32,
        Units { zero: 0.0, one: 1.0, largest: f32::MAX },
        &|a: &f32, b: &f32| if a == b { 1.0 } else { 0.0 },
        &|count: usize| count as f32,
    );
    assert_eq!(plain(&found), vec![(0.0, 3.0, 1), (5.0, 6.0, 0)]);
}

#[test]
fn no_speech_gives_no_segments() {
    let speech: EmbeddedSpeech<f64, f32> = EmbeddedSpeech::new();
    let found = resolve_speakers(
        &speech,
        0.01,
        0.8f32,
        Units { zero: 0.0, one: 1.0, largest: f32::MAX },
        &|a: &f32, b: &f32| a * b,
        &|count: usize| count as f32,
    );
    assert!(found.is_empty());
}

#[test]
fn decimals_read_as_usual() {
    for n in [0, 7, 9, 10, 11, 99, 100, 1234567890, usize::MAX] {
        assert_eq!(decimal_text(n), format!("{}", n));
    }
}

#[test]
fn speakers_are_counted_from_one() {
    assert_eq!(speaker_label(0), "Speaker 1");
    assert_eq!(speaker_label(9), "Speaker 10");
}

#[test]
fn longest_overlap_tells_the_speaker() {
    let segments = vec![segment(0.0, 4.0, 0), segment(4.0, 9.0, 1), segment(9.0, 14.0, 2)];
    assert_eq!(best_speaker(&segments, 3.0, 8.0, 0.0), Some("Speaker 2".to_string()));
    assert_eq!(best_speaker(&segments, 0.0, 5.0, 0.0), Some("Speaker 1".to_string()));
    // A tie goes to the first.
    assert_eq!(best_speaker(&segments, 3.0, 5.0, 0.0), Some("Speaker 1".to_string()));
    // To touch is not to overlap.
    assert_eq!(best_speaker(&segments, 14.0, 20.0, 0.0), None);
    assert_eq!(best_speaker(&segments, 5.0, 5.0, 0.0), None);
    assert_eq!(best_speaker(&Vec::new(), 0.0, 5.0, 0.0), None);
}

#[test]
fn lines_without_times_have_no_speaker() {
    let segments = vec![segment(0.0, 4.0, 0)];
    let lines = vec![
        Transcript { id: "a".to_string(), audio_start_time: Some(1.0), audio_end_time: Some(2.0) },
        Transcript { id: "b".to_string(), audio_start_time: None, audio_end_time: None },
        Transcript { id: "c".to_string(), audio_start_time: None, audio_end_time: Some(3.0) },
    ];
    let updates = align(&lines, &segments, 0.0);
    let seen: Vec<(&str, Option<&str>)> =
        updates.iter().map(|u| (u.id.as_str(), u.speaker.as_deref())).collect();
    assert_eq!(seen, vec![("a", Some("Speaker 1")), ("b", None), ("c", Some("Speaker 1"))]);
}

#[test]
fn maximum_and_minimum_ignore_what_is_not_a_number() {
    assert_eq!(maximum(1.0, 2.0), 2.0);
    assert_eq!(maximum(2.0, 1.0), 2.0);
    assert_eq!(maximum(f64::NAN, 1.0), 1.0);
    assert_eq!(maximum(1.0, f64::NAN), 1.0);
    assert_eq!(minimum(1.0, 2.0), 1.0);
    assert_eq!(minimum(2.0, 1.0), 1.0);
    assert_eq!(minimum(f64::NAN, 1.0), 1.0);
    assert_eq!(minimum(1.0, f64::NAN), 1.0);
}
