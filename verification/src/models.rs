//! The model files: which are missing, and how a download goes.

use crate::exact;
use crate::functions;
use crate::scalar;
use crate::scalar::minimum;
use crate::text;
use crate::text::{concatenated, enclosed};
use core::ops::{Div, Mul};
use vstd::prelude::*;
#[allow(unused_imports)]
use vstd::std_specs::ops::{DivSpec, MulSpec};

verus! {

/// A model that the pipeline runs.
#[derive(Debug, Clone, Copy, PartialEq, Eq, Structural)]
pub enum Model {
    /// Finds where somebody speaks.
    Segmentation,
    /// Makes the voice print of a stretch of speech.
    Embedding,
}

impl Model {
    /// A file of this many bytes or fewer is not the whole model.
    pub open spec fn too_small(self) -> u64 {
        match self {
            Model::Segmentation => 1_000_000,
            Model::Embedding => 10_000_000,
        }
    }

    /// The name of the model in messages.
    pub open spec fn called(self) -> Seq<char> {
        match self {
            Model::Segmentation => "segmentation"@,
            Model::Embedding => "embedding"@,
        }
    }

    /// The name of the model in messages.
    pub fn name(&self) -> (name: &'static str)
        ensures
            name@ == self.called(),
    {
        match self {
            Model::Segmentation => "segmentation",
            Model::Embedding => "embedding",
        }
    }

    /// The name of the file that holds the model.
    pub fn file_name(&self) -> (name: &'static str)
        ensures
            name@ == (match self {
                Model::Segmentation => "segmentation.onnx"@,
                Model::Embedding => "embedding.onnx"@,
            }),
    {
        match self {
            Model::Segmentation => "segmentation.onnx",
            Model::Embedding => "embedding.onnx",
        }
    }

    /// Where the model can be downloaded.
    pub fn url(&self) -> (url: &'static str)
        ensures
            url@ == (match self {
                Model::Segmentation =>
                    "https://huggingface.co/csukuangfj/sherpa-onnx-pyannote-segmentation-3-0/resolve/main/model.onnx"@,
                Model::Embedding =>
                    "https://huggingface.co/csukuangfj/speaker-embedding-models/resolve/main/wespeaker_en_voxceleb_resnet34.onnx"@,
            }),
    {
        match self {
            Model::Segmentation =>
                "https://huggingface.co/csukuangfj/sherpa-onnx-pyannote-segmentation-3-0/resolve/main/model.onnx",
            Model::Embedding =>
                "https://huggingface.co/csukuangfj/speaker-embedding-models/resolve/main/wespeaker_en_voxceleb_resnet34.onnx",
        }
    }

    /// Tells whether the model has to be downloaded, from the size of its file;
    /// `None` if there is no file or its size cannot be told.
    pub fn needs_download(&self, file_size: Option<u64>) -> (needed: bool)
        ensures
            needed <==> !(file_size matches Some(size) && size > self.too_small()),
    {
        let limit: u64 = match self {
            Model::Segmentation => 1_000_000,
            Model::Embedding => 10_000_000,
        };
        match file_size {
            Some(size) => !(size > limit),
            None => true,
        }
    }
}

/// The models that are missing, in the order in which they are downloaded.
pub open spec fn missing(segmentation: Option<u64>, embedding: Option<u64>) -> Seq<Model> {
    let first = if segmentation matches Some(size) && size > Model::Segmentation.too_small() {
        Seq::<Model>::empty()
    } else {
        seq![Model::Segmentation]
    };
    let second = if embedding matches Some(size) && size > Model::Embedding.too_small() {
        Seq::<Model>::empty()
    } else {
        seq![Model::Embedding]
    };
    first + second
}

/// Lists the models to download, from the sizes of their files.
pub fn missing_models(segmentation: Option<u64>, embedding: Option<u64>) -> (models: Vec<Model>)
    ensures
        models@ == missing(segmentation, embedding),
{
    let mut models: Vec<Model> = Vec::new();
    if Model::Segmentation.needs_download(segmentation) {
        models.push(Model::Segmentation);
    }
    if Model::Embedding.needs_download(embedding) {
        models.push(Model::Embedding);
    }
    proof {
        assert(models@ =~= missing(segmentation, embedding));
    }
    models
}

/// What looking after the models comes to next.
#[derive(Debug, Clone, Copy, PartialEq, Eq, Structural)]
pub enum SupplyStep {
    /// Download this model.
    Fetch(Model),
    /// All models are there.
    Ready,
    /// A download failed.
    GivenUp,
}

/// Looking after the models: those that are missing are downloaded one after the
/// other.
#[derive(Debug)]
pub struct Supply {
    pub missing: Vec<Model>,
    /// How many of them have been downloaded.
    pub fetched: usize,
    pub given_up: bool,
}

impl Supply {
    /// No more models have been downloaded than were missing.
    pub open spec fn valid(&self) -> bool {
        self.fetched <= self.missing@.len()
    }

    /// What comes next: after a failure nothing is downloaded any more.
    pub open spec fn next(&self) -> SupplyStep {
        if self.given_up {
            SupplyStep::GivenUp
        } else if self.fetched < self.missing@.len() {
            SupplyStep::Fetch(self.missing@[self.fetched as int])
        } else {
            SupplyStep::Ready
        }
    }

    /// The state after one more download came to this.
    pub open spec fn after(self, outcome: Result<(), String>) -> Self {
        match outcome {
            Ok(_) => Supply { fetched: (self.fetched + 1) as usize, ..self },
            Err(_) => Supply { given_up: true, ..self },
        }
    }

    /// Starts from the sizes of the model files.
    pub fn start(segmentation: Option<u64>, embedding: Option<u64>) -> (supply: Self)
        ensures
            supply.valid(),
            supply.missing@ == missing(segmentation, embedding),
            supply.fetched == 0,
            !supply.given_up,
    {
        Supply { missing: missing_models(segmentation, embedding), fetched: 0, given_up: false }
    }

    /// Tells what comes next.
    pub fn step(&self) -> (step: SupplyStep)
        requires
            self.valid(),
        ensures
            step == self.next(),
    {
        if self.given_up {
            SupplyStep::GivenUp
        } else if self.fetched < self.missing.len() {
            SupplyStep::Fetch(self.missing[self.fetched])
        } else {
            SupplyStep::Ready
        }
    }

    /// Takes the outcome of a download; the reason of one that failed is handed on as
    /// it is.
    pub fn advance(&mut self, outcome: Result<(), String>) -> (failure: Option<String>)
        requires
            old(self).valid(),
            old(self).next() is Fetch,
        ensures
            final(self).valid(),
            *final(self) == old(self).after(outcome),
            match outcome {
                Ok(_) => failure is None,
                Err(why) => failure == Some(why) && final(self).next() == SupplyStep::GivenUp,
            },
    {
        match outcome {
            Ok(_) => {
                assert(self.fetched < self.missing.len());
                self.fetched = self.fetched + 1;
                None
            },
            Err(why) => {
                self.given_up = true;
                Some(why)
            },
        }
    }
}

/// What a download does next.
#[derive(Debug, Clone, Copy, PartialEq, Eq, Structural)]
pub enum DownloadStep {
    /// Ask the server for the file.
    Request,
    /// Create the file on disk.
    Create,
    /// Wait for the next chunk.
    Read,
    /// Write a chunk of this many bytes to the file.
    Write(u64),
    /// Flush the file.
    Flush,
    /// The file is complete.
    Done,
    /// The download was given up.
    Failed,
}

/// What came of a step.
#[derive(Debug)]
pub enum DownloadEvent {
    /// The server sent the file, of this many bytes if it says so.
    Accepted(Option<u64>),
    /// The server answered with this status instead.
    Refused(String),
    /// The file was created, a chunk was written, or the file was flushed.
    Done,
    /// A chunk of this many bytes has come.
    Chunk(u64),
    /// No more chunks come.
    Ended,
    /// The step failed, for this reason.
    Failed(String),
}

/// A step can end with this event.
pub open spec fn download_fits(step: DownloadStep, event: DownloadEvent) -> bool {
    match step {
        DownloadStep::Request => event is Accepted || event is Refused || event is Failed,
        DownloadStep::Create => event is Done || event is Failed,
        DownloadStep::Read => event is Chunk || event is Ended || event is Failed,
        DownloadStep::Write(_) => event is Done || event is Failed,
        DownloadStep::Flush => event is Done || event is Failed,
        DownloadStep::Done => false,
        DownloadStep::Failed => false,
    }
}

/// The step after one that ended with this event.
pub open spec fn download_next(step: DownloadStep, event: DownloadEvent) -> DownloadStep {
    match event {
        DownloadEvent::Failed(_) => DownloadStep::Failed,
        DownloadEvent::Refused(_) => DownloadStep::Failed,
        DownloadEvent::Accepted(_) => DownloadStep::Create,
        DownloadEvent::Chunk(len) => DownloadStep::Write(len),
        DownloadEvent::Ended => DownloadStep::Flush,
        DownloadEvent::Done => match step {
            DownloadStep::Flush => DownloadStep::Done,
            _ => DownloadStep::Read,
        },
    }
}

/// Why a download was given up.
pub open spec fn download_failure(
    model: Model,
    step: DownloadStep,
    event: DownloadEvent,
) -> Option<Seq<char>> {
    match event {
        DownloadEvent::Refused(status) => Some(
            "Download request failed for "@ + model.called() + " with status: "@ + status@,
        ),
        DownloadEvent::Failed(detail) => Some(
            (match step {
                DownloadStep::Request => "Failed to send download request for "@,
                DownloadStep::Create => "Failed to create file for "@,
                DownloadStep::Read => "Error reading stream chunk for "@,
                DownloadStep::Write(_) => "Failed to write chunk to file for "@,
                _ => "Failed to flush file for "@,
            }) + model.called() + ": "@ + detail@,
        ),
        _ => None,
    }
}

/// What listeners are told of a download.
#[derive(Debug, Clone, Copy, PartialEq, Eq, Structural)]
pub struct DownloadNotice {
    pub model: Model,
    /// How many bytes have been written to the file.
    pub downloaded: u64,
    /// How many bytes the file will have; 0 if the server does not say.
    pub total: u64,
}

impl DownloadNotice {
    /// The name under which listeners hear of the notice.
    pub fn channel(&self) -> (name: &'static str)
        ensures
            name@ == "diarization-model-download-progress"@,
    {
        "diarization-model-download-progress"
    }

    /// How much of the file has come, as a percentage that never exceeds 100; 0 if
    /// the server does not say how long the file is. `number_of` turns a count into a
    /// number.
    pub fn percent<T, C>(&self, number_of: &C) -> (percent: T)
        where
            T: Copy + PartialOrd + Div<Output = T> + Mul<Output = T>,
            C: Fn(u64) -> T,

        requires
            scalar::ordered::<T>(),
            T::obeys_div_spec(),
            T::obeys_mul_spec(),
            functions::steady(*number_of),
            self.total > 0 ==> {
                let downloaded = functions::value(*number_of, self.downloaded);
                let total = functions::value(*number_of, self.total);
                &&& downloaded.div_req(total)
                &&& downloaded.div_spec(total).mul_req(functions::value(*number_of, 100u64))
            },
        ensures
            percent == (if self.total > 0 {
                scalar::smaller(
                    functions::value(*number_of, self.downloaded).div_spec(
                        functions::value(*number_of, self.total),
                    ).mul_spec(functions::value(*number_of, 100u64)),
                    functions::value(*number_of, 100u64),
                )
            } else {
                functions::value(*number_of, 0u64)
            }),
            self.total > 0 ==> percent == functions::value(*number_of, 100u64) || !scalar::gt(
                percent,
                functions::value(*number_of, 100u64),
            ),
    {
        if self.total > 0 {
            let downloaded: T = number_of(self.downloaded);
            let total: T = number_of(self.total);
            let hundred: T = number_of(100);
            minimum((downloaded / total) * hundred, hundred)
        } else {
            number_of(0)
        }
    }
}

/// What listeners are told after a step that ended with this event and led to this
/// state of the download: how much has come, whenever a chunk has been written.
pub open spec fn download_told(
    step: DownloadStep,
    event: DownloadEvent,
    after: Download,
) -> Option<DownloadNotice> {
    if step is Write && event is Done {
        Some(
            DownloadNotice {
                model: after.model,
                downloaded: after.downloaded,
                total: after.total,
            },
        )
    } else {
        None
    }
}

/// What one step of a download leads to.
#[derive(Debug)]
pub struct DownloadAdvance {
    /// What listeners are told.
    pub notice: Option<DownloadNotice>,
    /// Why the download was given up, if it was.
    pub failure: Option<String>,
}

/// A download in progress.
#[derive(Debug)]
pub struct Download {
    pub model: Model,
    pub step: DownloadStep,
    /// How many bytes have been written to the file.
    pub downloaded: u64,
    /// How many bytes the file will have; 0 if the server does not say.
    pub total: u64,
}

impl Download {
    /// The download after one more step, which ended with this event.
    pub open spec fn after(self, event: DownloadEvent) -> Self {
        Download {
            model: self.model,
            step: download_next(self.step, event),
            downloaded: match self.step {
                DownloadStep::Write(len) if event is Done => (self.downloaded + len) as u64,
                _ => self.downloaded,
            },
            total: match event {
                DownloadEvent::Accepted(Some(length)) => length,
                DownloadEvent::Accepted(None) => 0,
                _ => self.total,
            },
        }
    }

    /// The next step can end with this event, and the bytes can still be counted.
    pub open spec fn takes(self, event: DownloadEvent) -> bool {
        &&& download_fits(self.step, event)
        &&& self.step matches DownloadStep::Write(len) ==> self.downloaded + len <= u64::MAX
    }

    /// A download that has not started.
    pub fn new(model: Model) -> (download: Self)
        ensures
            download.model == model,
            download.step == DownloadStep::Request,
            download.downloaded == 0,
            download.total == 0,
    {
        Download { model, step: DownloadStep::Request, downloaded: 0, total: 0 }
    }

    /// Goes on to the next step, and says what listeners are told and, if the download
    /// is given up, why.
    pub fn advance(&mut self, event: DownloadEvent) -> (advance: DownloadAdvance)
        requires
            old(self).takes(event),
        ensures
            *final(self) == old(self).after(event),
            match download_failure(old(self).model, old(self).step, event) {
                Some(words) => advance.failure matches Some(text) && text@ == words,
                None => advance.failure is None,
            },
            advance.notice == download_told(old(self).step, event, *final(self)),
    {
        let step: DownloadStep = self.step;
        match event {
            DownloadEvent::Failed(detail) => {
                self.step = DownloadStep::Failed;
                let opening: &'static str = match step {
                    DownloadStep::Request => "Failed to send download request for ",
                    DownloadStep::Create => "Failed to create file for ",
                    DownloadStep::Read => "Error reading stream chunk for ",
                    DownloadStep::Write(_) => "Failed to write chunk to file for ",
                    _ => "Failed to flush file for ",
                };
                let head: String = enclosed(opening, self.model.name(), ": ");
                DownloadAdvance {
                    notice: None,
                    failure: Some(concatenated(head.as_str(), detail.as_str())),
                }
            },
            DownloadEvent::Refused(status) => {
                self.step = DownloadStep::Failed;
                let head: String = enclosed(
                    "Download request failed for ",
                    self.model.name(),
                    " with status: ",
                );
                DownloadAdvance {
                    notice: None,
                    failure: Some(concatenated(head.as_str(), status.as_str())),
                }
            },
            DownloadEvent::Accepted(length) => {
                self.total = match length {
                    Some(bytes) => bytes,
                    None => 0,
                };
                self.step = DownloadStep::Create;
                DownloadAdvance { notice: None, failure: None }
            },
            DownloadEvent::Chunk(len) => {
                self.step = DownloadStep::Write(len);
                DownloadAdvance { notice: None, failure: None }
            },
            DownloadEvent::Ended => {
                self.step = DownloadStep::Flush;
                DownloadAdvance { notice: None, failure: None }
            },
            DownloadEvent::Done => match step {
                DownloadStep::Write(len) => {
                    self.downloaded = self.downloaded + len;
                    self.step = DownloadStep::Read;
                    DownloadAdvance {
                        notice: Some(
                            DownloadNotice {
                                model: self.model,
                                downloaded: self.downloaded,
                                total: self.total,
                            },
                        ),
                        failure: None,
                    }
                },
                DownloadStep::Flush => {
                    self.step = DownloadStep::Done;
                    DownloadAdvance { notice: None, failure: None }
                },
                _ => {
                    self.step = DownloadStep::Read;
                    DownloadAdvance { notice: None, failure: None }
                },
            },
        }
    }
}

/// The download after its first `n` steps, which ended with these events.
pub open spec fn followed(start: Download, events: Seq<DownloadEvent>, n: int) -> Download
    decreases n,
{
    if n <= 0 {
        start
    } else {
        followed(start, events, n - 1).after(events[n - 1])
    }
}

/// The bytes of the chunks among the first `n` events.
pub open spec fn received(events: Seq<DownloadEvent>, n: int) -> int
    decreases n,
{
    if n <= 0 {
        0
    } else {
        received(events, n - 1) + (match events[n - 1] {
            DownloadEvent::Chunk(len) => len as int,
            _ => 0,
        })
    }
}

/// A complete file holds every chunk that has come: as many bytes have been
/// written as were received.
pub proof fn law_complete_file_holds_every_chunk(
    start: Download,
    events: Seq<DownloadEvent>,
    n: int,
)
    requires
        start.step == DownloadStep::Request,
        start.downloaded == 0,
        0 <= n <= events.len(),
        forall|k: int| 0 <= k < n ==> followed(start, events, k).takes(#[trigger] events[k]),
        followed(start, events, n).step == DownloadStep::Done,
    ensures
        followed(start, events, n).downloaded == received(events, n),
{
    lemma_bytes_add_up(start, events, n);
}

proof fn lemma_bytes_add_up(start: Download, events: Seq<DownloadEvent>, n: int)
    requires
        start.step == DownloadStep::Request,
        start.downloaded == 0,
        0 <= n <= events.len(),
        forall|k: int| 0 <= k < n ==> followed(start, events, k).takes(#[trigger] events[k]),
    ensures
        followed(start, events, n).step != DownloadStep::Failed ==> received(events, n)
            == followed(start, events, n).downloaded + (match followed(start, events, n).step {
            DownloadStep::Write(len) => len as int,
            _ => 0,
        }),
    decreases n,
{
    if n > 0 {
        lemma_bytes_add_up(start, events, n - 1);
        assert(followed(start, events, n - 1).takes(events[n - 1]));
    }
}

/// The progress of a download never falls: what has been written stays written, and
/// once the server has accepted, the size of the file stays as it was told.
pub proof fn law_download_progress_never_falls(
    start: Download,
    events: Seq<DownloadEvent>,
    m: int,
    n: int,
)
    requires
        0 <= m <= n <= events.len(),
        forall|k: int| 0 <= k < n ==> followed(start, events, k).takes(#[trigger] events[k]),
    ensures
        followed(start, events, m).downloaded <= followed(start, events, n).downloaded,
        followed(start, events, m).step != DownloadStep::Request ==> followed(
            start,
            events,
            n,
        ).total == followed(start, events, m).total && followed(start, events, n).step
            != DownloadStep::Request,
    decreases n - m,
{
    if m < n {
        law_download_progress_never_falls(start, events, m, n - 1);
        assert(followed(start, events, n - 1).takes(events[n - 1]));
    }
}

/// What listeners are told of a download never falls back: of two notices the later
/// tells no fewer bytes, of the same file.
pub proof fn law_notices_never_fall_back(
    start: Download,
    events: Seq<DownloadEvent>,
    m: int,
    n: int,
    earlier: DownloadNotice,
    later: DownloadNotice,
)
    requires
        0 <= m <= n < events.len(),
        forall|k: int| 0 <= k <= n ==> followed(start, events, k).takes(#[trigger] events[k]),
        download_told(
            followed(start, events, m).step,
            events[m],
            followed(start, events, m + 1),
        ) == Some(earlier),
        download_told(
            followed(start, events, n).step,
            events[n],
            followed(start, events, n + 1),
        ) == Some(later),
    ensures
        earlier.downloaded <= later.downloaded,
        earlier.total == later.total,
        earlier.model == later.model,
{
    law_download_progress_never_falls(start, events, m + 1, n + 1);
    lemma_same_model(start, events, m + 1);
    lemma_same_model(start, events, n + 1);
    assert(followed(start, events, m).takes(events[m]));
}

proof fn lemma_same_model(start: Download, events: Seq<DownloadEvent>, n: int)
    ensures
        followed(start, events, n).model == start.model,
    decreases n,
{
    if n > 0 {
        lemma_same_model(start, events, n - 1);
    }
}

/// A download that is complete or was given up takes no further step.
pub proof fn law_download_ends(download: Download, event: DownloadEvent)
    requires
        download.step == DownloadStep::Done || download.step == DownloadStep::Failed,
    ensures
        !download.takes(event),
{
}

/// Models whose files are large enough are not downloaded again.
pub proof fn law_present_models_are_kept(segmentation: u64, embedding: u64)
    requires
        segmentation > Model::Segmentation.too_small(),
        embedding > Model::Embedding.too_small(),
    ensures
        missing(Some(segmentation), Some(embedding)).len() == 0,
{
}

/// The state after the first `n` downloads, which came to this.
pub open spec fn supplied(start: Supply, outcomes: Seq<Result<(), String>>, n: int) -> Supply
    decreases n,
{
    if n <= 0 {
        start
    } else {
        supplied(start, outcomes, n - 1).after(outcomes[n - 1])
    }
}

/// The missing models are asked for in order, each once. The first download that
/// fails ends the matter: no model is asked for after it. The models are ready when
/// every download has succeeded.
pub proof fn law_first_failure_ends_the_downloads(
    start: Supply,
    outcomes: Seq<Result<(), String>>,
    n: int,
)
    requires
        start.fetched == 0,
        !start.given_up,
        start.missing@.len() <= usize::MAX,
        0 <= n <= outcomes.len(),
        forall|k: int| 0 <= k < n ==> (#[trigger] supplied(start, outcomes, k)).next() is Fetch,
    ensures
        forall|k: int|
            0 <= k < n ==> (#[trigger] supplied(start, outcomes, k)).next() == SupplyStep::Fetch(
                start.missing@[k],
            ),
        forall|k: int| 0 <= k < n - 1 ==> #[trigger] outcomes[k] is Ok,
        n > 0 && outcomes[n - 1] is Err ==> supplied(start, outcomes, n).next()
            == SupplyStep::GivenUp,
        n == 0 || outcomes[n - 1] is Ok ==> supplied(start, outcomes, n).next() == (if n
            < start.missing@.len() {
            SupplyStep::Fetch(start.missing@[n])
        } else {
            SupplyStep::Ready
        }),
{
    lemma_supplied(start, outcomes, n);
    assert forall|k: int| 0 <= k < n implies (#[trigger] supplied(start, outcomes, k)).next()
        == SupplyStep::Fetch(start.missing@[k]) by {
        lemma_supplied(start, outcomes, k);
    }
    assert forall|k: int| 0 <= k < n - 1 implies #[trigger] outcomes[k] is Ok by {
        assert(supplied(start, outcomes, k + 1) == supplied(start, outcomes, k).after(
            outcomes[k],
        ));
        assert(supplied(start, outcomes, k + 1).next() is Fetch);
    }
}

proof fn lemma_supplied(start: Supply, outcomes: Seq<Result<(), String>>, n: int)
    requires
        start.fetched == 0,
        !start.given_up,
        start.missing@.len() <= usize::MAX,
        0 <= n <= outcomes.len(),
        forall|k: int| 0 <= k < n ==> (#[trigger] supplied(start, outcomes, k)).next() is Fetch,
    ensures
        supplied(start, outcomes, n).missing == start.missing,
        supplied(start, outcomes, n).given_up <==> n > 0 && outcomes[n - 1] is Err,
        !supplied(start, outcomes, n).given_up ==> supplied(start, outcomes, n).fetched == n,
        n <= start.missing@.len(),
    decreases n,
{
    if n > 0 {
        lemma_supplied(start, outcomes, n - 1);
        assert(supplied(start, outcomes, n - 1).next() is Fetch);
    }
}

/// A model is downloaded unless there is a file of it that is larger than a million bytes,
/// or than ten million for the embedding model.
pub proof fn law_small_files_are_downloaded_again(
    model: Model,
    file_size: Option<u64>,
    needed: bool,
)
    requires
        call_ensures(Model::needs_download, (&model, file_size), needed),
    ensures
        needed <==> match (file_size, model) {
            (None, _) => true,
            (Some(bytes), Model::Segmentation) => bytes <= 1_000_000,
            (Some(bytes), Model::Embedding) => bytes <= 10_000_000,
        },
{
}

/// A model is listed as missing exactly when it has to be downloaded, once, and the
/// segmentation model first.
pub proof fn law_missing_models_are_those_to_download(
    segmentation: Option<u64>,
    embedding: Option<u64>,
    models: Vec<Model>,
)
    requires
        call_ensures(missing_models, (segmentation, embedding), models),
    ensures
        models@.contains(Model::Segmentation) <==> !(segmentation matches Some(bytes) && bytes
            > 1_000_000),
        models@.contains(Model::Embedding) <==> !(embedding matches Some(bytes) && bytes
            > 10_000_000),
        forall|k: int, l: int| 0 <= k < l < models@.len() ==> models@[k] != models@[l],
        models@.len() == 2 ==> models@[0] == Model::Segmentation,
{
    let first = !(segmentation matches Some(bytes) && bytes > 1_000_000);
    let second = !(embedding matches Some(bytes) && bytes > 10_000_000);
    if first {
        assert(models@[0] == Model::Segmentation);
    }
    if second {
        assert(models@[models@.len() - 1] == Model::Embedding);
    }
}

/// The percentage is how much of the file has come: of a hundred, what the bytes that
/// have come are of all, and never more than a hundred. It is nothing where the length of
/// the file is not known.
pub proof fn law_percentage_is_the_share_that_has_come<T, C>(
    of: spec_fn(T) -> real,
    notice: DownloadNotice,
    number_of: &C,
    percent: T,
) where
    T: Copy + PartialOrd + Div<Output = T> + Mul<Output = T>,
    C: Fn(u64) -> T,

    requires
        exact::multiplies(of),
        exact::divides(of),
        exact::compares(of),
        forall|n: u64| of(#[trigger] functions::value(*number_of, n)) == n as real,
        call_ensures(DownloadNotice::percent::<T, C>, (&notice, number_of), percent),
    ensures
        notice.total == 0 ==> of(percent) == 0real,
        notice.total > 0 ==> of(percent) * (notice.total as real) == 100real * exact::minimum(
            notice.downloaded as real,
            notice.total as real,
        ),
{
    if notice.total > 0 {
        let downloaded = functions::value(*number_of, notice.downloaded);
        let total = functions::value(*number_of, notice.total);
        let hundred = functions::value(*number_of, 100u64);
        let part = downloaded.div_spec(total);
        exact::law_larger_and_smaller_are_exact(of, part.mul_spec(hundred), hundred);
        let (d, t, p) = (notice.downloaded as real, notice.total as real, of(part));
        assert(p * t == d);
        assert(of(part.mul_spec(hundred)) == p * 100real);
        assert(exact::minimum(p * 100real, 100real) * t == 100real * exact::minimum(d, t))
            by (nonlinear_arith)
            requires
                p * t == d,
                t > 0real,
        {
            if p * 100real < 100real {
                assert(p < 1real);
                assert(d < t);
                assert(p * 100real * t == 100real * d);
            } else {
                assert(p >= 1real);
                assert(d >= t);
            }
        }
    }
}

/// None of the first `n` steps failed.
pub open spec fn none_fails(events: Seq<DownloadEvent>, n: int) -> bool {
    forall|k: int|
        0 <= k < n ==> !((#[trigger] events[k]) is Failed) && !(events[k] is Refused)
}

/// As long as nothing fails, a download goes its way: the file is asked for, created, and
/// then chunks are read and written in turn, each as long as it came; when no more come,
/// the file is flushed, and that is the end.
pub proof fn law_download_reads_and_writes_in_turn(
    start: Download,
    events: Seq<DownloadEvent>,
    n: int,
)
    requires
        start.step == DownloadStep::Request,
        0 <= n <= events.len(),
        forall|k: int| 0 <= k < n ==> followed(start, events, k).takes(#[trigger] events[k]),
        none_fails(events, n),
    ensures
        ({
            let step = followed(start, events, n).step;
            &&& n == 0 ==> step == DownloadStep::Request
            &&& n == 1 ==> step == DownloadStep::Create
            &&& n == 2 ==> step == DownloadStep::Read
            &&& n > 2 && n % 2 == 1 ==> match events[n - 1] {
                DownloadEvent::Chunk(len) => step == DownloadStep::Write(len),
                event => event is Ended && step == DownloadStep::Flush,
            }
            &&& n > 2 && n % 2 == 0 ==> step == (if events[n - 2] is Ended {
                DownloadStep::Done
            } else {
                DownloadStep::Read
            })
        }),
    decreases n,
{
    if n > 0 {
        law_download_reads_and_writes_in_turn(start, events, n - 1);
        let before = followed(start, events, n - 1);
        assert(before.takes(events[n - 1]));
        assert(!(events[n - 1] is Failed) && !(events[n - 1] is Refused));
        assert(followed(start, events, n) == before.after(events[n - 1]));
        if n > 2 && n % 2 == 1 {
            assert((n - 1) % 2 == 0);
            assert(before.step == DownloadStep::Read);
        } else if n > 2 {
            assert((n - 1) % 2 == 1);
        }
    }
}

/// The first step that fails ends a download.
pub proof fn law_failing_ends_a_download(download: Download, event: DownloadEvent)
    requires
        download.takes(event),
    ensures
        download.after(event).step == DownloadStep::Failed <==> event is Failed || event is Refused,
        download.after(event).model == download.model,
{
}

/// Whenever a chunk has been written, and only then, listeners are told how many bytes of
/// chunks have come by then, of how many the server promised.
pub proof fn law_notices_tell_what_has_come(
    start: Download,
    events: Seq<DownloadEvent>,
    n: int,
)
    requires
        start.step == DownloadStep::Request,
        start.downloaded == 0,
        0 <= n < events.len(),
        forall|k: int| 0 <= k <= n ==> followed(start, events, k).takes(#[trigger] events[k]),
    ensures
        ({
            let notice = download_told(
                followed(start, events, n).step,
                events[n],
                followed(start, events, n + 1),
            );
            &&& notice is Some <==> n > 0 && events[n - 1] is Chunk && events[n] is Done
            &&& notice matches Some(told) ==> {
                &&& told.model == start.model
                &&& told.downloaded == received(events, n + 1)
                &&& events[0] matches DownloadEvent::Accepted(length)
                &&& told.total == (match length {
                    Some(bytes) => bytes,
                    None => 0u64,
                })
            }
        }),
{
    lemma_bytes_add_up(start, events, n + 1);
    lemma_same_model(start, events, n + 1);
    assert(followed(start, events, n).takes(events[n]));
    if n > 0 {
        assert(followed(start, events, n - 1).takes(events[n - 1]));
        assert(followed(start, events, 0).takes(events[0]));
        assert(followed(start, events, 1) == start.after(events[0]));
        assert(followed(start, events, 1).takes(events[1]));
        law_download_progress_never_falls(start, events, 1, n + 1);
    }
}

/// Which events a download takes, as long as its bytes can be counted.
pub proof fn law_download_steps_end_as_they_can(download: Download, event: DownloadEvent)
    requires
        download.step matches DownloadStep::Write(len) ==> download.downloaded + len <= u64::MAX,
    ensures
        event is Accepted || event is Refused ==> (download.takes(event)
            <==> download.step is Request),
        event is Chunk || event is Ended ==> (download.takes(event) <==> download.step is Read),
        event is Done ==> (download.takes(event) <==> download.step is Create
            || download.step is Write || download.step is Flush),
        event is Failed ==> (download.takes(event) <==> !(download.step is Done
            || download.step is Failed)),
{
}

/// The reason for giving up a download ends with what the server or the failing step
/// says, and is given exactly when the download is given up.
pub proof fn law_download_reasons_say_what_the_step_says(
    model: Model,
    step: DownloadStep,
    event: DownloadEvent,
)
    requires
        download_fits(step, event),
    ensures
        match event {
            DownloadEvent::Failed(detail) => download_failure(model, step, event) matches Some(
                reason,
            ) && text::ends_with(reason, detail@),
            DownloadEvent::Refused(status) => download_failure(model, step, event) matches Some(
                reason,
            ) && text::ends_with(reason, status@),
            _ => download_failure(model, step, event) is None,
        },
{
    match event {
        DownloadEvent::Failed(detail) => {
            let reason = download_failure(model, step, event)->0;
            assert(reason.skip(reason.len() - detail@.len()) =~= detail@);
        },
        DownloadEvent::Refused(status) => {
            let reason = download_failure(model, step, event)->0;
            assert(reason.skip(reason.len() - status@.len()) =~= status@);
        },
        _ => {},
    }
}

/// Failures of different steps never give the same reason.
pub proof fn law_download_reasons_tell_steps_apart(
    model: Model,
    step: DownloadStep,
    other: DownloadStep,
    event: DownloadEvent,
)
    requires
        event is Failed,
        download_fits(step, event),
        download_fits(other, event),
        !(step is Write && other is Write),
    ensures
        download_failure(model, step, event) == download_failure(model, other, event) <==> step
            == other,
{
    reveal_strlit("Failed to send download request for ");
    reveal_strlit("Failed to create file for ");
    reveal_strlit("Error reading stream chunk for ");
    reveal_strlit("Failed to write chunk to file for ");
    reveal_strlit("Failed to flush file for ");
    let (one, two) = (
        download_failure(model, step, event)->0,
        download_failure(model, other, event)->0,
    );
    if step != other {
        assert(one.len() != two.len());
    }
}

} // verus!
