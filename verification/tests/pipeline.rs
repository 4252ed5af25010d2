use diarization::clock::Clock;
use diarization::diarizer::Diarizer;
use diarization::embedding::{read_print, EmbeddingExtractor, RawPrint, Spectrum};
use diarization::segmentation::{
    read_scores, Answer, Scores, SegmentationEngine, SegmentationRules,
};
use diarization::tensor::{Output, Tensor};
use diarization::types::{DiarizationConfig, DiarizationError, DiarizationSegment, ShapeFault};
use std::cell::Cell;

type Floats = Clock<fn(usize) -> f64, fn(f64) -> usize, fn(f64) -> usize, fn(f64) -> usize>;

fn clock() -> Floats {
    Clock {
        count_of: |n| n as f64,
        whole: |x| x as usize,
        round: |x| x.round() as usize,
        ceil: |x| x.ceil() as usize,
    }
}

fn rules() -> SegmentationRules<f32, f64> {
    SegmentationRules {
        zero: 0.0,
        one: 1.0,
        lowest: f32::MIN,
        threshold: 0.5,
        max_gap_secs: 0.1,
        min_duration_secs: 0.3,
    }
}

/// Ten samples in a second, windows of a second that overlap by half.
fn config() -> DiarizationConfig<f64, f32> {
    DiarizationConfig {
        segmentation_window_secs: 1.0,
        segmentation_hop_secs: 0.5,
        clustering_threshold: 0.8,
        sample_rate: 10,
    }
}

/// Hears the first voice in loud samples, the second in deep ones.
fn listen(asked: &Tensor<f32>) -> Answer<f32> {
    let mut data = Vec::new();
    for &sample in &asked.data {
        let class = if sample > 0.5 {
            1
        } else if sample < -0.5 {
            2
        } else {
            0
        };
        for c in 0..7 {
            data.push(if c == class { 10.0 } else { 0.0 });
        }
    }
    Ok(Scores { data, frames: asked.cols, classes: 7 })
}

fn plain(segments: &[DiarizationSegment<f64>]) -> Vec<(f64, f64, usize)> {
    segments.iter().map(|s| (s.start, s.end, s.speaker_id)).collect()
}

fn parts(parts: &[(usize, f32)]) -> Vec<f32> {
    parts.iter().flat_map(|&(n, x)| std::iter::repeat(x).take(n)).collect()
}

#[test]
fn the_standard_numbers_are_exact() {
    let number_of = |n: usize| n as f32;
    let time_of = |n: usize| n as f64;
    let config = DiarizationConfig::standard(&time_of, &number_of);
    assert_eq!(config.segmentation_window_secs, 10.0);
    assert_eq!(config.segmentation_hop_secs, 0.5);
    assert_eq!(config.clustering_threshold, 0.8);
    assert_eq!(config.sample_rate, 16000);

    let rules = SegmentationRules::standard(&number_of, &time_of, f32::MIN);
    assert_eq!((rules.zero, rules.one, rules.lowest), (0.0, 1.0, f32::MIN));
    assert_eq!(rules.threshold, 0.5);
    assert_eq!((rules.max_gap_secs, rules.min_duration_secs), (0.1, 0.3));

    let extractor = EmbeddingExtractor::standard(
        number_of,
        f32::sqrt,
        filter,
        |_: &Tensor<f32>| -> RawPrint<f32> { Ok(vec![1.0]) },
    );
    assert_eq!((extractor.zero, extractor.smallest), (0.0, 1e-6));

    let diarizer = Diarizer::standard(
        SegmentationEngine::new(rules, clock(), f32::exp, listen),
        extractor,
        |a: &Vec<f32>, b: &Vec<f32>| a[0] * b[0],
        f32::MAX,
        |_: &DiarizationSegment<f64>, _: &DiarizationError| (),
    );
    assert_eq!((diarizer.largest, diarizer.tolerance), (f32::MAX, 0.01));
}

#[test]
fn an_empty_recording_is_not_shown_to_the_model() {
    let asked = Cell::new(0);
    let engine = SegmentationEngine::new(rules(), clock(), f32::exp, |t: &Tensor<f32>| {
        asked.set(asked.get() + 1);
        listen(t)
    });
    assert!(engine.segment(&[], &config()).unwrap().is_empty());
    assert_eq!(asked.get(), 0);
}

#[test]
fn voices_are_found_where_they_are_heard() {
    let shapes = Cell::new(0);
    let engine = SegmentationEngine::new(rules(), clock(), f32::exp, |t: &Tensor<f32>| {
        assert_eq!((t.batch, t.rows, t.cols, t.data.len()), (1, 1, 10, 10));
        shapes.set(shapes.get() + 1);
        listen(t)
    });
    let samples = parts(&[(10, 1.0), (5, 0.0), (5, -1.0)]);
    let found = engine.segment(&samples, &config()).unwrap();
    assert_eq!(plain(&found), vec![(0.0, 1.0, 0), (1.5, 2.0, 1)]);
    assert_eq!(shapes.get(), 4);
}

#[test]
fn short_silence_is_bridged_and_short_speech_is_dropped() {
    let engine = SegmentationEngine::new(rules(), clock(), f32::exp, listen);
    // One silent frame is bridged, two are not; two frames of speech are too short.
    let samples = parts(&[(4, 1.0), (1, 0.0), (4, 1.0), (2, 0.0), (2, 1.0), (7, 0.0)]);
    let found = engine.segment(&samples, &config()).unwrap();
    assert_eq!(plain(&found), vec![(0.0, 0.9, 0)]);
}

#[test]
fn a_model_with_too_few_classes_is_refused() {
    let engine = SegmentationEngine::new(rules(), clock(), f32::exp, |t: &Tensor<f32>| {
        Ok(Scores { data: vec![0.0; t.cols * 6], frames: t.cols, classes: 6 })
    });
    let made = engine.segment(&[1.0; 10], &config());
    assert!(matches!(made, Err(DiarizationError::Shape(ShapeFault::IncompatibleShape))));
}

#[test]
fn a_model_that_fails_is_not_asked_again() {
    let asked = Cell::new(0);
    let engine = SegmentationEngine::new(rules(), clock(), f32::exp, |t: &Tensor<f32>| {
        asked.set(asked.get() + 1);
        if asked.get() == 2 {
            Err(DiarizationError::OutputNotFound("y".to_string()))
        } else {
            listen(t)
        }
    });
    let made = engine.segment(&[1.0; 20], &config());
    assert_eq!(made.unwrap_err().message(), "Model output not found: y");
    assert_eq!(asked.get(), 2);
}

#[test]
fn model_without_frames_finds_nothing() {
    let engine = SegmentationEngine::new(rules(), clock(), f32::exp, |_: &Tensor<f32>| {
        Ok(Scores { data: Vec::new(), frames: 0, classes: 7 })
    });
    assert!(engine.segment(&[1.0; 20], &config()).unwrap().is_empty());
}

#[test]
fn exchanging_voices_exchanges_their_numbers() {
    let swap = |a: usize, b: usize, samples: &[f32]| {
        // Classes 1 to 3 hold one voice each, 4 to 6 two.
        let pairs: &[(usize, usize)] = match (a, b) {
            (0, 1) => &[(1, 2), (5, 6)],
            (0, 2) => &[(1, 3), (4, 6)],
            _ => &[(2, 3), (4, 5)],
        };
        let engine = SegmentationEngine::new(rules(), clock(), f32::exp, |t: &Tensor<f32>| {
            let mut scores = listen(t)?;
            for row in scores.data.chunks_mut(7) {
                for &(x, y) in pairs {
                    row.swap(x, y);
                }
            }
            Ok(scores)
        });
        plain(&engine.segment(samples, &config()).unwrap())
    };
    let samples = parts(&[(10, 1.0), (5, 0.0), (5, -1.0)]);
    assert_eq!(swap(0, 1, &samples), vec![(0.0, 1.0, 1), (1.5, 2.0, 0)]);
    assert_eq!(swap(0, 2, &samples), vec![(0.0, 1.0, 2), (1.5, 2.0, 1)]);
    assert_eq!(swap(1, 2, &samples), vec![(0.0, 1.0, 0), (1.5, 2.0, 2)]);
}

#[test]
fn outputs_are_read_by_their_shape() {
    let made = read_scores::<f32>(None);
    assert_eq!(made.unwrap_err().message(), "Model output not found: y");
    let made = read_scores(Some(Output { shape: vec![2, 7], data: vec![0.0f32; 14] }));
    assert!(matches!(made, Err(DiarizationError::Shape(ShapeFault::IncompatibleShape))));
    // Of two batches the first counts.
    let data: Vec<f32> = (0..28).map(|i| i as f32).collect();
    let made = read_scores(Some(Output { shape: vec![2, 2, 7], data })).unwrap();
    assert_eq!((made.frames, made.classes, made.data.len()), (2, 7, 14));
    assert_eq!(made.data[13], 13.0);
    // No batch, and too few classes.
    let made = read_scores::<f32>(Some(Output { shape: vec![0, 2, 6], data: vec![] })).unwrap();
    assert_eq!((made.frames, made.classes), (2, 6));

    let made = read_print::<f32>(None);
    assert_eq!(made.unwrap_err().message(), "Model output not found: embs");
    let made = read_print(Some(Output { shape: vec![1, 2, 2], data: vec![0.0f32; 4] }));
    assert!(matches!(made, Err(DiarizationError::Shape(ShapeFault::IncompatibleShape))));
    let made = read_print(Some(Output { shape: vec![2, 3], data: vec![1, 2, 3, 4, 5, 6] }));
    assert_eq!(made.unwrap(), vec![1, 2, 3]);
}

#[test]
fn segments_of_one_voice_are_apart_and_long() {
    let engine = SegmentationEngine::new(rules(), clock(), f32::exp, listen);
    // Both voices start together only where their frames do; two silent frames part.
    let samples = parts(&[(3, 1.0), (2, 0.0), (3, 1.0), (2, 0.0), (10, -1.0)]);
    let found = plain(&engine.segment(&samples, &config()).unwrap());
    assert_eq!(found.iter().map(|s| s.2).collect::<Vec<usize>>(), vec![0, 0, 1]);
    assert!(found.iter().all(|s| s.1 - s.0 > 0.29 && s.1 <= 2.0));
    assert!(found[1].0 - found[0].1 > 0.1);
}

#[test]
fn configuration_has_no_part_in_a_voice_print() {
    let extractor = EmbeddingExtractor::new(
        0.0f32,
        1e-6,
        |n: usize| n as f32,
        f32::sqrt,
        filter,
        |t: &Tensor<f32>| -> RawPrint<f32> { Ok(vec![t.data[0], 1.0]) },
    );
    let other = DiarizationConfig {
        segmentation_window_secs: 3.0,
        segmentation_hop_secs: 1.0,
        clustering_threshold: 0.1,
        sample_rate: 8000,
    };
    let one = extractor.extract_embedding(&[1.0; 5], &config()).unwrap();
    let two = extractor.extract_embedding(&[1.0; 5], &other).unwrap();
    assert_eq!(one.data, two.data);
}

/// Two frames: the average of the samples in every band, then nothing.
fn filter(heard: &[f32]) -> Spectrum<f32> {
    let average = heard.iter().sum::<f32>() / heard.len() as f32;
    Ok(vec![Some(vec![average; 80]), Some(vec![0.0; 80])])
}

#[test]
fn voice_prints_have_length_one() {
    let extractor = EmbeddingExtractor::new(
        0.0f32,
        1e-6,
        |n: usize| n as f32,
        f32::sqrt,
        |_: &[f32]| -> Spectrum<f32> { Ok(vec![Some(vec![1.0; 80]), Some(vec![3.0; 80])]) },
        |t: &Tensor<f32>| -> RawPrint<f32> {
            assert_eq!((t.batch, t.rows, t.cols), (1, 2, 80));
            assert!(t.data[..80].iter().all(|&x| x == -1.0));
            assert!(t.data[80..].iter().all(|&x| x == 1.0));
            Ok(vec![3.0, 4.0])
        },
    );
    let print = extractor.extract_embedding(&[0.0; 5], &config()).unwrap();
    assert_eq!(print.data, vec![0.6, 0.8]);
}

#[test]
fn hardly_any_voice_is_not_scaled() {
    let extractor = EmbeddingExtractor::new(
        0.0f32,
        1e-6,
        |n: usize| n as f32,
        f32::sqrt,
        filter,
        |_: &Tensor<f32>| -> RawPrint<f32> { Ok(vec![1e-7, 0.0]) },
    );
    let print = extractor.extract_embedding(&[1.0; 5], &config()).unwrap();
    assert_eq!(print.data, vec![1e-7, 0.0]);
}

#[test]
fn voice_prints_can_fail() {
    let no_filter = EmbeddingExtractor::new(
        0.0f32,
        1e-6,
        |n: usize| n as f32,
        f32::sqrt,
        |_: &[f32]| -> Spectrum<f32> {
            Err(DiarizationError::FeatureExtraction("no bins".to_string()))
        },
        |_: &Tensor<f32>| -> RawPrint<f32> { Ok(vec![1.0]) },
    );
    let made = no_filter.extract_embedding(&[1.0; 5], &config());
    assert_eq!(made.unwrap_err().message(), "Feature extraction error: no bins");

    let odd_bands = EmbeddingExtractor::new(
        0.0f32,
        1e-6,
        |n: usize| n as f32,
        f32::sqrt,
        |_: &[f32]| -> Spectrum<f32> { Ok(vec![Some(vec![1.0; 81])]) },
        |_: &Tensor<f32>| -> RawPrint<f32> { Ok(vec![1.0]) },
    );
    let made = odd_bands.extract_embedding(&[1.0; 5], &config());
    assert!(matches!(made, Err(DiarizationError::Shape(ShapeFault::IncompatibleShape))));

    let no_model = EmbeddingExtractor::new(
        0.0f32,
        1e-6,
        |n: usize| n as f32,
        f32::sqrt,
        filter,
        |_: &Tensor<f32>| -> RawPrint<f32> { Err(DiarizationError::Ort("gone".to_string())) },
    );
    let made = no_model.extract_embedding(&[1.0; 5], &config());
    assert_eq!(made.unwrap_err().message(), "ORT error: gone");
}

type Told = (Vec<(f64, f64, usize)>, Option<(f64, f64)>);

/// The segments, and the one that no voice print could be made of.
fn diarized(samples: &[f32], failing: Option<usize>) -> Told {
    let asked = Cell::new(0);
    let reported = Cell::new(None);
    let diarizer = Diarizer::new(
        SegmentationEngine::new(rules(), clock(), f32::exp, listen),
        EmbeddingExtractor::new(
            0.0f32,
            1e-6,
            |n: usize| n as f32,
            f32::sqrt,
            filter,
            |t: &Tensor<f32>| -> RawPrint<f32> {
                let at = asked.replace(asked.get() + 1);
                if failing == Some(at) {
                    Err(DiarizationError::Ort("gone".to_string()))
                } else {
                    Ok(vec![t.data[0]])
                }
            },
        ),
        |a: &Vec<f32>, b: &Vec<f32>| a[0] * b[0],
        f32::MAX,
        0.01,
        |segment: &DiarizationSegment<f64>, error: &DiarizationError| {
            assert_eq!(error.message(), "ORT error: gone");
            reported.set(Some((segment.start, segment.end)));
        },
    );
    let found = plain(&diarizer.diarize(samples, &config()).unwrap());
    (found, reported.get())
}

#[test]
fn speakers_are_told_apart_and_found_again() {
    let samples = parts(&[(10, 1.0), (10, -1.0), (10, 1.0)]);
    let found = vec![(0.0, 1.0, 0), (1.0, 2.0, 1), (2.0, 3.0, 0)];
    assert_eq!(diarized(&samples, None), (found, None));
    assert_eq!(diarized(&[], None), (vec![], None));
    assert_eq!(diarized(&[0.0; 30], None), (vec![], None));
}

#[test]
fn speakers_are_numbered_as_they_appear() {
    // The second voice of the model speaks first and is the first speaker.
    let samples = parts(&[(10, -1.0), (10, 1.0)]);
    assert_eq!(diarized(&samples, None).0, vec![(0.0, 1.0, 0), (1.0, 2.0, 1)]);
}

#[test]
fn speech_without_voice_print_is_left_out() {
    let samples = parts(&[(10, 1.0), (10, -1.0), (10, 1.0)]);
    let found = vec![(1.0, 2.0, 0), (2.0, 3.0, 1)];
    assert_eq!(diarized(&samples, Some(0)), (found, Some((0.0, 1.0))));
    let found = vec![(0.0, 1.0, 0), (2.0, 3.0, 0)];
    assert_eq!(diarized(&samples, Some(1)), (found, Some((1.0, 2.0))));
}

#[test]
fn segmentation_failure_ends_the_diarization() {
    let diarizer = Diarizer::new(
        SegmentationEngine::new(rules(), clock(), f32::exp, |_: &Tensor<f32>| -> Answer<f32> {
            Err(DiarizationError::Ort("no session".to_string()))
        }),
        EmbeddingExtractor::new(
            0.0f32,
            1e-6,
            |n: usize| n as f32,
            f32::sqrt,
            filter,
            |_: &Tensor<f32>| -> RawPrint<f32> { Ok(vec![1.0]) },
        ),
        |a: &Vec<f32>, b: &Vec<f32>| a[0] * b[0],
        f32::MAX,
        0.01,
        |_: &DiarizationSegment<f64>, _: &DiarizationError| panic!("no segment was found"),
    );
    let made = diarizer.diarize(&[1.0; 10], &config());
    assert_eq!(made.unwrap_err().message(), "ORT error: no session");
}
