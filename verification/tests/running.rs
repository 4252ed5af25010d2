use diarization::models::{
    missing_models, Download, DownloadEvent, DownloadNotice, DownloadStep, Model, Supply, SupplyStep,
};
use diarization::run::{under_home, Channel, DiarizationRun, Notice, RunEvent, RunStep, Status};
use diarization::types::{DiarizationError, ShapeFault};

#[test]
fn models_that_are_too_small_are_downloaded() {
    assert_eq!(missing_models(None, None), vec![Model::Segmentation, Model::Embedding]);
    assert_eq!(missing_models(Some(1_000_001), Some(10_000_001)), vec![]);
    assert_eq!(missing_models(Some(1_000_000), Some(10_000_001)), vec![Model::Segmentation]);
    assert_eq!(missing_models(Some(1_000_001), Some(10_000_000)), vec![Model::Embedding]);
}

#[test]
fn models_have_names_files_and_sources() {
    assert_eq!(Model::Segmentation.name(), "segmentation");
    assert_eq!(Model::Embedding.name(), "embedding");
    assert_eq!(Model::Segmentation.file_name(), "segmentation.onnx");
    assert_eq!(Model::Embedding.file_name(), "embedding.onnx");
    assert!(Model::Segmentation.url().ends_with("/sherpa-onnx-pyannote-segmentation-3-0/resolve/main/model.onnx"));
    assert!(Model::Embedding.url().ends_with("/wespeaker_en_voxceleb_resnet34.onnx"));
}

fn percent(notice: DownloadNotice) -> u8 {
    notice.percent(&|count: u64| count as f64) as u8
}

/// Takes a step that goes well, and returns what listeners are told.
fn step(download: &mut Download, event: DownloadEvent) -> Option<DownloadNotice> {
    let advance = download.advance(event);
    assert!(advance.failure.is_none());
    advance.notice
}

#[test]
fn download_counts_the_chunks_it_writes() {
    let mut download = Download::new(Model::Embedding);
    assert_eq!(step(&mut download, DownloadEvent::Accepted(Some(200))), None);
    assert_eq!(download.step, DownloadStep::Create);
    assert_eq!(step(&mut download, DownloadEvent::Done), None);
    assert_eq!(step(&mut download, DownloadEvent::Chunk(58)), None);
    assert_eq!(download.step, DownloadStep::Write(58));
    assert_eq!(download.downloaded, 0);
    let notice = step(&mut download, DownloadEvent::Done).unwrap();
    assert_eq!(notice, DownloadNotice { model: Model::Embedding, downloaded: 58, total: 200 });
    assert_eq!(notice.channel(), "diarization-model-download-progress");
    // 0.29 times 100 is a little less than 29.
    assert_eq!(percent(notice), 28);
    assert_eq!(step(&mut download, DownloadEvent::Chunk(150)), None);
    let notice = step(&mut download, DownloadEvent::Done).unwrap();
    // No fewer bytes than before, of the same file.
    assert_eq!((notice.downloaded, notice.total), (208, 200));
    assert_eq!(percent(notice), 100);
    assert_eq!(step(&mut download, DownloadEvent::Ended), None);
    assert_eq!(download.step, DownloadStep::Flush);
    assert_eq!(step(&mut download, DownloadEvent::Done), None);
    assert_eq!(download.step, DownloadStep::Done);
}

#[test]
fn percentage_is_zero_while_the_size_is_unknown() {
    let mut download = Download::new(Model::Segmentation);
    step(&mut download, DownloadEvent::Accepted(None));
    step(&mut download, DownloadEvent::Done);
    step(&mut download, DownloadEvent::Chunk(10));
    let notice = step(&mut download, DownloadEvent::Done).unwrap();
    assert_eq!((notice.downloaded, notice.total), (10, 0));
    assert_eq!(percent(notice), 0);
}

#[test]
fn missing_models_are_fetched_one_after_the_other() {
    let mut supply = Supply::start(None, Some(5));
    assert_eq!(supply.step(), SupplyStep::Fetch(Model::Segmentation));
    assert_eq!(supply.advance(Ok(())), None);
    assert_eq!(supply.step(), SupplyStep::Fetch(Model::Embedding));
    assert_eq!(supply.advance(Ok(())), None);
    assert_eq!(supply.step(), SupplyStep::Ready);
    assert_eq!(Supply::start(Some(1_000_001), Some(10_000_001)).step(), SupplyStep::Ready);
}

#[test]
fn the_first_failed_download_ends_the_matter() {
    let mut supply = Supply::start(None, None);
    assert_eq!(supply.advance(Err("no route".to_string())), Some("no route".to_string()));
    assert_eq!(supply.step(), SupplyStep::GivenUp);
}

#[test]
fn downloads_say_why_they_fail() {
    let failing = |events: Vec<DownloadEvent>| {
        let mut download = Download::new(Model::Segmentation);
        let mut last = None;
        for event in events {
            assert!(last.is_none());
            let advance = download.advance(event);
            assert!(advance.notice.is_none() || advance.failure.is_none());
            last = advance.failure;
        }
        assert_eq!(download.step, DownloadStep::Failed);
        last.unwrap()
    };
    let no = || DownloadEvent::Failed("no".to_string());
    assert_eq!(failing(vec![no()]), "Failed to send download request for segmentation: no");
    assert_eq!(
        failing(vec![DownloadEvent::Refused("404 Not Found".to_string())]),
        "Download request failed for segmentation with status: 404 Not Found"
    );
    assert_eq!(
        failing(vec![DownloadEvent::Accepted(None), no()]),
        "Failed to create file for segmentation: no"
    );
    assert_eq!(
        failing(vec![DownloadEvent::Accepted(None), DownloadEvent::Done, no()]),
        "Error reading stream chunk for segmentation: no"
    );
    assert_eq!(
        failing(vec![
            DownloadEvent::Accepted(None),
            DownloadEvent::Done,
            DownloadEvent::Chunk(1),
            no()
        ]),
        "Failed to write chunk to file for segmentation: no"
    );
    assert_eq!(
        failing(vec![
            DownloadEvent::Accepted(None),
            DownloadEvent::Done,
            DownloadEvent::Ended,
            no()
        ]),
        "Failed to flush file for segmentation: no"
    );
}

fn tell(notice: Option<Notice>) -> Option<(&'static str, &'static str, u8, Option<String>)> {
    notice.map(|n| (n.channel.name(), n.status.word(), n.progress, n.message))
}

#[test]
fn a_run_that_goes_well() {
    let (mut run, first) = DiarizationRun::start("m1".to_string());
    assert_eq!(
        tell(first),
        Some((
            "diarization-progress",
            "started",
            0,
            Some("Starting diarization process...".to_string())
        ))
    );
    let events = vec![
        RunEvent::Done,
        RunEvent::Folder(true),
        RunEvent::Done,
        RunEvent::Done,
        RunEvent::Done,
        RunEvent::Done,
        RunEvent::Done,
        RunEvent::Lines(2),
        RunEvent::Done,
        RunEvent::Done,
        RunEvent::Done,
        RunEvent::Done,
    ];
    let mut steps = Vec::new();
    let mut told = Vec::new();
    for event in events {
        steps.push(run.step);
        let advance = run.advance(event);
        assert!(advance.failure.is_none());
        if let Some(seen) = tell(advance.notice) {
            told.push(seen);
        }
    }
    assert_eq!(
        steps,
        vec![
            RunStep::FetchState,
            RunStep::FetchFolder,
            RunStep::LocateAudio,
            RunStep::EnsureModels,
            RunStep::Decode,
            RunStep::Resample,
            RunStep::Diarize,
            RunStep::LoadTranscripts,
            RunStep::BeginUpdates,
            RunStep::UpdateSpeaker(0),
            RunStep::UpdateSpeaker(1),
            RunStep::CommitUpdates,
        ]
    );
    assert_eq!(run.step, RunStep::Completed);
    let progress = "diarization-progress";
    assert_eq!(
        told,
        vec![
            (progress, "downloading", 5, Some("Ensuring diarization models are downloaded...".to_string())),
            (progress, "decoding", 20, Some("Decoding meeting audio...".to_string())),
            (progress, "diarizing", 50, Some("Running speaker diarization pipeline...".to_string())),
            (progress, "aligning", 85, Some("Aligning speaker segments...".to_string())),
            ("diarization-complete", "success", 100, None),
        ]
    );
}

#[test]
fn an_empty_transcript_is_committed_at_once() {
    let (mut run, _) = DiarizationRun::start("m1".to_string());
    run.step = RunStep::LoadTranscripts;
    run.advance(RunEvent::Lines(0));
    assert_eq!(run.step, RunStep::BeginUpdates);
    run.advance(RunEvent::Done);
    assert_eq!(run.step, RunStep::CommitUpdates);
}

#[test]
fn runs_say_why_they_fail() {
    let failing = |step: RunStep, event: RunEvent| {
        let (mut run, _) = DiarizationRun::start("m1".to_string());
        run.step = step;
        run.lines = 1;
        let advance = run.advance(event);
        assert_eq!(run.step, RunStep::Failed);
        let why = advance.failure.unwrap();
        let notice = advance.notice.unwrap();
        assert_eq!(notice.channel, Channel::Progress);
        assert_eq!(notice.status, Status::Failed);
        assert_eq!(notice.progress, 0);
        assert_eq!(notice.message, Some(format!("Diarization error: {}", why)));
        why
    };
    let no = || RunEvent::Failed("no".to_string());
    let panicked = || RunEvent::Panicked("oh".to_string());
    assert_eq!(failing(RunStep::FetchState, no()), "App state not available");
    assert_eq!(failing(RunStep::FetchFolder, no()), "Database error fetching meeting: no");
    assert_eq!(
        failing(RunStep::FetchFolder, RunEvent::Folder(false)),
        "Meeting m1 has no associated folder path"
    );
    assert_eq!(
        failing(RunStep::LocateAudio, RunEvent::Missing("/x/audio.mp4".to_string())),
        "Audio file not found at: /x/audio.mp4"
    );
    assert_eq!(failing(RunStep::EnsureModels, no()), "no");
    assert_eq!(failing(RunStep::Decode, no()), "Audio decoding failed: no");
    assert_eq!(failing(RunStep::Decode, panicked()), "Decoding task panicked: oh");
    assert_eq!(failing(RunStep::Resample, panicked()), "Resampling task panicked: oh");
    assert_eq!(failing(RunStep::Diarize, no()), "Diarization failed: no");
    assert_eq!(failing(RunStep::Diarize, panicked()), "Diarization pipeline task panicked: oh");
    assert_eq!(failing(RunStep::LoadTranscripts, no()), "Failed to fetch transcripts: no");
    assert_eq!(failing(RunStep::BeginUpdates, no()), "Failed to start database transaction: no");
    assert_eq!(failing(RunStep::UpdateSpeaker(0), no()), "Failed to update speaker field: no");
    assert_eq!(failing(RunStep::CommitUpdates, no()), "Failed to commit database updates: no");
}

#[test]
fn folders_under_home() {
    assert_eq!(under_home("~/meetings/x", true), Some("meetings/x".to_string()));
    assert_eq!(under_home("~/", true), Some("".to_string()));
    assert_eq!(under_home("~/riunioni-é", true), Some("riunioni-é".to_string()));
    assert_eq!(under_home("~/meetings", false), None);
    assert_eq!(under_home("~meetings", true), None);
    assert_eq!(under_home("/~/meetings", true), None);
    assert_eq!(under_home("~", true), None);
    assert_eq!(under_home("", true), None);
}

#[test]
fn errors_say_what_is_wrong() {
    let message = |e: DiarizationError| e.message();
    assert_eq!(message(DiarizationError::Ort("x".to_string())), "ORT error: x");
    assert_eq!(message(DiarizationError::Io("x".to_string())), "I/O error: x");
    assert_eq!(message(DiarizationError::InputNotFound("x".to_string())), "Model input not found: x");
    assert_eq!(message(DiarizationError::OutputNotFound("y".to_string())), "Model output not found: y");
    assert_eq!(
        message(DiarizationError::FeatureExtraction("x".to_string())),
        "Feature extraction error: x"
    );
    let kinds = [
        (ShapeFault::IncompatibleShape, ndarray::ErrorKind::IncompatibleShape),
        (ShapeFault::IncompatibleLayout, ndarray::ErrorKind::IncompatibleLayout),
        (ShapeFault::RangeLimited, ndarray::ErrorKind::RangeLimited),
        (ShapeFault::OutOfBounds, ndarray::ErrorKind::OutOfBounds),
        (ShapeFault::Unsupported, ndarray::ErrorKind::Unsupported),
        (ShapeFault::Overflow, ndarray::ErrorKind::Overflow),
    ];
    for (fault, kind) in kinds {
        assert_eq!(
            message(DiarizationError::Shape(fault)),
            format!(
                "ndarray shape/dimensionality error: {}",
                ndarray::ShapeError::from_kind(kind)
            )
        );
    }
}
