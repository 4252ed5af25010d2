use diarization::activity::{lower_by_peak, voice_likelihoods, ActivityGrid, Logits};
use diarization::speech::{active_runs, fill_gaps, find_segments};
use diarization::types::{DiarizationError, ShapeFault};
use diarization::windows::{window, window_starts, window_tensor};

fn bits(text: &str) -> Vec<bool> {
    text.chars().map(|c| c == '#').collect()
}

fn marks(active: &[bool]) -> String {
    active.iter().map(|&a| if a { '#' } else { '.' }).collect()
}

#[test]
fn windows_start_every_hop_until_the_samples_end() {
    assert_eq!(window_starts(10, 4), vec![0, 4, 8]);
    assert_eq!(window_starts(8, 4), vec![0, 4]);
    assert_eq!(window_starts(3, 100), vec![0]);
    assert_eq!(window_starts(0, 4), Vec::<usize>::new());
    assert_eq!(window_starts(usize::MAX, usize::MAX), vec![0]);
}

#[test]
fn every_sample_lies_in_a_window() {
    let starts = window_starts(37, 5);
    for sample in 0..37 {
        assert!(starts.iter().any(|&s| s <= sample && sample < s + 5));
    }
}

#[test]
fn window_is_filled_up_with_silence() {
    let samples = [1.0f32, 2.0, 3.0, 4.0, 5.0];
    assert_eq!(window(&samples, 1, 3, 0.0), vec![2.0, 3.0, 4.0]);
    assert_eq!(window(&samples, 3, 4, 0.0), vec![4.0, 5.0, 0.0, 0.0]);
    assert_eq!(window(&samples, 5, 2, 0.0), vec![0.0, 0.0]);
    assert_eq!(window(&samples, 0, 0, 0.0), Vec::<f32>::new());
}

#[test]
fn window_tensor_has_one_batch_of_one_channel() {
    let samples = [1.0f32, 2.0, 3.0];
    let tensor = window_tensor(&samples, 2, 3, 0.0).unwrap();
    assert_eq!((tensor.batch, tensor.rows, tensor.cols), (1, 1, 3));
    assert_eq!(tensor.data, vec![3.0, 0.0, 0.0]);
}

#[test]
fn too_few_classes_are_refused() {
    match Logits::new(vec![0.0f32; 12], 2, 6) {
        Err(DiarizationError::Shape(fault)) => assert_eq!(fault, ShapeFault::IncompatibleShape),
        _ => panic!("six classes were accepted"),
    }
    assert!(Logits::new(vec![0.0f32; 14], 2, 7).is_ok());
}

#[test]
fn scores_are_lowered_by_the_largest_of_their_frame() {
    // Two frames of eight classes; the eighth does not count.
    let data = vec![
        1.0f32, 2.0, 3.0, 4.0, 5.0, 6.0, 7.0, 99.0, //
        -1.0, -2.0, -3.0, -4.0, -5.0, -6.0, -7.0, 99.0,
    ];
    let logits = match Logits::new(data, 2, 8) {
        Ok(logits) => logits,
        Err(_) => panic!("eight classes were refused"),
    };
    assert_eq!(
        lower_by_peak(&logits, f32::MIN),
        vec![
            -6.0, -5.0, -4.0, -3.0, -2.0, -1.0, 0.0, //
            0.0, -1.0, -2.0, -3.0, -4.0, -5.0, -6.0
        ]
    );
}

#[test]
fn likelihoods_add_the_shares_of_the_classes_of_a_voice() {
    // The row adds up to 16, so every share is exact.
    let row = [1.0f32, 1.0, 2.0, 4.0, 1.0, 3.0, 4.0];
    let (a, b, c) = voice_likelihoods(&row, 0.0);
    assert_eq!(a, (1.0 + 1.0 + 3.0) / 16.0);
    assert_eq!(b, (2.0 + 1.0 + 4.0) / 16.0);
    assert_eq!(c, (4.0 + 3.0 + 4.0) / 16.0);
    // A row without weight is left as it is.
    assert_eq!(voice_likelihoods(&[0.0f32; 7], 0.0), (0.0, 0.0, 0.0));
}

#[test]
fn grid_has_room_for_the_estimate_and_ten_more() {
    let grid = ActivityGrid::with_room(5, 3, 0.0f32);
    assert_eq!(grid.cells.len(), 18);
    assert!(grid.cells.iter().all(|c| c.weight == 0.0 && c.voices == (0.0, 0.0, 0.0)));
}

#[test]
fn windows_add_up_and_are_averaged() {
    let mut grid: ActivityGrid<f32> = ActivityGrid { cells: Vec::new() };
    // All weight on the first voice, then half on nobody and half on the second.
    let only_a = [0.0f32, 1.0, 0.0, 0.0, 0.0, 0.0, 0.0];
    let half_b = [1.0f32, 0.0, 1.0, 0.0, 0.0, 0.0, 0.0];
    let mut rows = only_a.to_vec();
    rows.extend_from_slice(&half_b);
    grid.add_window(&rows, &vec![0, 3], 0.0, 1.0);
    assert_eq!(grid.cells.len(), 4);
    grid.add_window(&only_a.to_vec(), &vec![3], 0.0, 1.0);
    assert_eq!(grid.cells[3].weight, 2.0);
    assert_eq!(grid.cells[3].voices, (1.0, 0.5, 0.0));
    // Frames between the two are silent.
    assert_eq!(grid.cells[1].weight, 0.0);
    assert_eq!(grid.cells[2].voices, (0.0, 0.0, 0.0));
    grid.average(0.0);
    assert_eq!(grid.cells[0].voices, (1.0, 0.0, 0.0));
    assert_eq!(grid.cells[3].voices, (0.5, 0.25, 0.0));
    assert_eq!(grid.cells[1].voices, (0.0, 0.0, 0.0));
    assert_eq!(grid.loud_frames(0, 0.5), vec![true, false, false, true]);
    assert_eq!(grid.loud_frames(1, 0.25), vec![false, false, false, true]);
    assert_eq!(grid.loud_frames(2, 0.5), vec![false; 4]);
}

#[test]
fn short_gaps_are_bridged_and_edges_are_not() {
    let cases = [
        ("..#.#..", 1, "..###.."),
        ("..#..#..", 1, "..#..#.."),
        ("..#..#..", 2, "..####.."),
        ("#...#.#", 1, "#...###"),
        ("....", 9, "...."),
        ("####", 9, "####"),
        (".#", 9, ".#"),
        ("#.", 9, "#."),
        ("#.#", 0, "#.#"),
        ("", 3, ""),
    ];
    for (before, max_gap, after) in cases {
        let mut active = bits(before);
        fill_gaps(&mut active, max_gap);
        assert_eq!(marks(&active), after);
        // Nothing is left to bridge.
        fill_gaps(&mut active, max_gap);
        assert_eq!(marks(&active), after);
    }
}

#[test]
fn runs_are_found_first_to_last() {
    assert_eq!(active_runs(&bits("##.#..###"), 1), vec![(0, 2), (3, 4), (6, 9)]);
    assert_eq!(active_runs(&bits("##.#..###"), 2), vec![(0, 2), (6, 9)]);
    assert_eq!(active_runs(&bits("##.#..###"), 4), vec![]);
    assert_eq!(active_runs(&bits("##.#..###"), 0), vec![(0, 2), (3, 4), (6, 9)]);
    assert_eq!(active_runs(&bits(""), 0), vec![]);
}

fn grid_of(voices: [&str; 3]) -> ActivityGrid<f32> {
    let mut grid = ActivityGrid { cells: Vec::new() };
    let length = voices[0].len();
    for frame in 0..length {
        let on: Vec<bool> = voices.iter().map(|v| v.as_bytes()[frame] == b'#').collect();
        let class = match (on[0], on[1], on[2]) {
            (false, false, false) => 0,
            (true, false, false) => 1,
            (false, true, false) => 2,
            (false, false, true) => 3,
            (true, true, false) => 4,
            (true, false, true) => 5,
            (false, true, true) => 6,
            (true, true, true) => panic!("no class for three voices"),
        };
        let mut row = vec![0.0f32; 7];
        row[class] = 1.0;
        grid.add_window(&row, &vec![frame], 0.0, 1.0);
    }
    grid.average(0.0);
    grid
}

#[test]
fn segments_of_all_voices_come_in_order() {
    let grid = grid_of([
        "###.###...", //
        "....######", //
        "##........",
    ]);
    let times: Vec<f64> = (0..=10).map(|i| i as f64 * 0.5).collect();
    let found = find_segments(&grid, 0.5, 1, 2, &times, 4.25);
    let seen: Vec<(f64, f64, usize)> =
        found.iter().map(|s| (s.start, s.end, s.speaker_id)).collect();
    // The first and the third voice start together: the first comes first. The
    // last segment is clipped to the end of the recording.
    assert_eq!(seen, vec![(0.0, 3.5, 0), (0.0, 1.0, 2), (2.0, 4.25, 1)]);
}

#[test]
fn segments_past_the_end_of_the_recording_are_dropped() {
    let grid = grid_of(["....##", "......", "......"]);
    let times: Vec<f64> = (0..=6).map(|i| i as f64).collect();
    assert!(find_segments(&grid, 0.5, 0, 1, &times, 4.0).is_empty());
    let found = find_segments(&grid, 0.5, 0, 1, &times, 4.5);
    assert_eq!((found[0].start, found[0].end), (4.0, 4.5));
}
