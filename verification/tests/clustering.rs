use diarization::clustering::{cluster, Units};
use diarization::types::SpeakerEmbedding;

const UNITS: Units<f32> = Units { zero: 0.0, one: 1.0, largest: f32::MAX };

fn dot(a: &Vec<f32>, b: &Vec<f32>) -> f32 {
    a.iter().zip(b).map(|(x, y)| x * y).sum()
}

fn labels(vectors: &[Vec<f32>], threshold: f32) -> Vec<usize> {
    let embeddings: Vec<SpeakerEmbedding<Vec<f32>>> =
        vectors.iter().map(|v| SpeakerEmbedding { data: v.clone() }).collect();
    cluster(&embeddings, threshold, UNITS, &dot, &|count: usize| count as f32)
}

#[test]
fn nothing_gives_no_labels() {
    assert_eq!(labels(&[], 0.8), Vec::<usize>::new());
}

#[test]
fn one_embedding_is_the_first_speaker() {
    assert_eq!(labels(&[vec![1.0, 0.0]], 0.8), vec![0]);
}

#[test]
fn two_voices_are_told_apart() {
    let a = vec![1.0, 0.0];
    let b = vec![0.0, 1.0];
    assert_eq!(labels(&[a.clone(), b.clone(), a.clone(), b.clone()], 0.8), vec![0, 1, 0, 1]);
    // With a threshold above their distance they are one.
    assert_eq!(labels(&[a.clone(), b.clone()], 1.5), vec![0, 0]);
    // The distance itself does not reach.
    assert_eq!(labels(&[a, b], 1.0), vec![0, 1]);
}

#[test]
fn labels_leave_no_number_out() {
    let found = labels(&[vec![0.0, 1.0], vec![1.0, 0.0], vec![-1.0, 0.0], vec![1.0, 0.0]], 0.5);
    assert_eq!(found, vec![0, 1, 2, 1]);
    for label in 0..3 {
        assert!(found.contains(&label));
    }
}

#[test]
fn clusters_are_compared_by_their_average_distance() {
    // Similarities by table: 0 and 1 are one voice; 2 is near to 1 only.
    let table = [
        [1.0f32, 0.75, 0.0, 0.0], //
        [0.75, 1.0, 0.5, 0.0],
        [0.0, 0.5, 1.0, 0.0],
        [0.0, 0.0, 0.0, 1.0],
    ];
    let embeddings: Vec<SpeakerEmbedding<usize>> =
        (0..4).map(|i| SpeakerEmbedding { data: i }).collect();
    let run = |threshold: f32| {
        cluster(
            &embeddings,
            threshold,
            UNITS,
            &|a: &usize, b: &usize| table[*a][*b],
            &|count: usize| count as f32,
        )
    };
    // {0, 1} and {2} are (1.0 + 0.5) / 2 = 0.75 apart on average.
    assert_eq!(run(0.75), vec![0, 0, 1, 2]);
    assert_eq!(run(0.76), vec![0, 0, 0, 1]);
    assert_eq!(run(0.25), vec![0, 1, 2, 3]);
    assert_eq!(run(9.0), vec![0, 0, 0, 0]);
}

#[test]
fn of_equally_close_pairs_the_first_is_merged() {
    // 0-1 and 2-3 are equally close; 1-2 is next.
    let table = [
        [1.0f32, 0.5, 0.0, 0.0], //
        [0.5, 1.0, 0.0, 0.0],
        [0.0, 0.0, 1.0, 0.5],
        [0.0, 0.0, 0.5, 1.0],
    ];
    let embeddings: Vec<SpeakerEmbedding<usize>> =
        (0..4).map(|i| SpeakerEmbedding { data: i }).collect();
    let found = cluster(
        &embeddings,
        0.6,
        UNITS,
        &|a: &usize, b: &usize| table[*a][*b],
        &|count: usize| count as f32,
    );
    assert_eq!(found, vec![0, 0, 1, 1]);
}

#[test]
fn distances_that_are_not_numbers_never_merge() {
    let found = labels(&[vec![f32::NAN], vec![f32::NAN], vec![f32::NAN]], 0.8);
    assert_eq!(found, vec![0, 1, 2]);
}

#[test]
fn the_average_is_taken_over_all_pairs() {
    // Of three voices 0 and 1 are merged first, then 2 is (50 + 30) / 2 = 40 away.
    let table = [[100i64, 90, 50], [90, 100, 70], [50, 70, 100]];
    let embeddings: Vec<SpeakerEmbedding<usize>> =
        (0..3).map(|i| SpeakerEmbedding { data: i }).collect();
    let units = Units { zero: 0, one: 100, largest: i64::MAX };
    let run = |threshold: i64| {
        cluster(
            &embeddings,
            threshold,
            units,
            &|a: &usize, b: &usize| table[*a][*b],
            &|count: usize| count as i64,
        )
    };
    assert_eq!(run(40), vec![0, 0, 1]);
    assert_eq!(run(41), vec![0, 0, 0]);
}

#[test]
fn a_higher_threshold_only_merges() {
    let table = [
        [1.0f32, 0.75, 0.0, 0.25],
        [0.75, 1.0, 0.5, 0.0],
        [0.0, 0.5, 1.0, 0.5],
        [0.25, 0.0, 0.5, 1.0],
    ];
    let embeddings: Vec<SpeakerEmbedding<usize>> =
        (0..4).map(|i| SpeakerEmbedding { data: i }).collect();
    let run = |threshold: f32| {
        cluster(
            &embeddings,
            threshold,
            UNITS,
            &|a: &usize, b: &usize| table[*a][*b],
            &|count: usize| count as f32,
        )
    };
    let mut low = run(0.1);
    for threshold in [0.3, 0.6, 0.8, 1.2] {
        let high = run(threshold);
        for i in 0..4 {
            for j in 0..4 {
                assert!(low[i] != low[j] || high[i] == high[j]);
            }
        }
        low = high;
    }
    assert_eq!(low, vec![0, 0, 0, 0]);
}

#[test]
fn labels_are_numbered_as_they_appear() {
    // The last two are merged first, and still have the later number.
    let table = [[1.0f32, 0.0, 0.0], [0.0, 1.0, 0.9], [0.0, 0.9, 1.0]];
    let embeddings: Vec<SpeakerEmbedding<usize>> =
        (0..3).map(|i| SpeakerEmbedding { data: i }).collect();
    let found = cluster(
        &embeddings,
        0.5,
        UNITS,
        &|a: &usize, b: &usize| table[*a][*b],
        &|count: usize| count as f32,
    );
    assert_eq!(found, vec![0, 1, 1]);
}
