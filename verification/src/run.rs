//! One run of the pipeline over a meeting, step by step.

use crate::text;
use crate::text::{concatenated, enclosed};
use vstd::prelude::*;
use vstd::string::StrSliceExecFns;

verus! {

/// What a run does next.
#[derive(Debug, Clone, Copy, PartialEq, Eq, Structural)]
pub enum RunStep {
    /// Get hold of the state of the application.
    FetchState,
    /// Look up the folder of the meeting.
    FetchFolder,
    /// Check that the folder holds the recording.
    LocateAudio,
    /// See that the models are there.
    EnsureModels,
    /// Decode the recording.
    Decode,
    /// Bring it to the sample rate of the models.
    Resample,
    /// Find out who spoke when.
    Diarize,
    /// Load the transcript and find the speaker of each line.
    LoadTranscripts,
    /// Begin a transaction.
    BeginUpdates,
    /// Store the speaker of the line with this index.
    UpdateSpeaker(usize),
    /// Commit the transaction.
    CommitUpdates,
    /// The speakers are stored.
    Completed,
    /// The run was given up.
    Failed,
}

/// What came of a step.
#[derive(Debug)]
pub enum RunEvent {
    /// The step succeeded.
    Done,
    /// The meeting was found; it has a folder or not.
    Folder(bool),
    /// There is no recording at this path.
    Missing(String),
    /// The transcript has this many lines.
    Lines(usize),
    /// The step failed, for this reason.
    Failed(String),
    /// The task that did the work panicked, for this reason.
    Panicked(String),
}

/// A step can end with this event.
pub open spec fn run_fits(step: RunStep, event: RunEvent) -> bool {
    match step {
        RunStep::FetchState => event is Done || event is Failed,
        RunStep::FetchFolder => event is Folder || event is Failed,
        RunStep::LocateAudio => event is Done || event is Missing,
        RunStep::EnsureModels => event is Done || event is Failed,
        RunStep::Decode => event is Done || event is Failed || event is Panicked,
        RunStep::Resample => event is Done || event is Panicked,
        RunStep::Diarize => event is Done || event is Failed || event is Panicked,
        RunStep::LoadTranscripts => event is Lines || event is Failed,
        RunStep::BeginUpdates => event is Done || event is Failed,
        RunStep::UpdateSpeaker(_) => event is Done || event is Failed,
        RunStep::CommitUpdates => event is Done || event is Failed,
        RunStep::Completed => false,
        RunStep::Failed => false,
    }
}

/// The step after one that ended with this event, in a run that has `lines` lines
/// to store.
pub open spec fn run_next(step: RunStep, event: RunEvent, lines: usize) -> RunStep {
    if event is Failed || event is Panicked || event is Missing || event == RunEvent::Folder(
        false,
    ) {
        RunStep::Failed
    } else {
        match step {
            RunStep::FetchState => RunStep::FetchFolder,
            RunStep::FetchFolder => RunStep::LocateAudio,
            RunStep::LocateAudio => RunStep::EnsureModels,
            RunStep::EnsureModels => RunStep::Decode,
            RunStep::Decode => RunStep::Resample,
            RunStep::Resample => RunStep::Diarize,
            RunStep::Diarize => RunStep::LoadTranscripts,
            RunStep::LoadTranscripts => RunStep::BeginUpdates,
            RunStep::BeginUpdates => if lines > 0 {
                RunStep::UpdateSpeaker(0)
            } else {
                RunStep::CommitUpdates
            },
            RunStep::UpdateSpeaker(line) => if line + 1 < lines {
                RunStep::UpdateSpeaker((line + 1) as usize)
            } else {
                RunStep::CommitUpdates
            },
            RunStep::CommitUpdates => RunStep::Completed,
            RunStep::Completed => RunStep::Completed,
            RunStep::Failed => RunStep::Failed,
        }
    }
}

/// Why a run was given up.
pub open spec fn run_failure(meeting: Seq<char>, step: RunStep, event: RunEvent) -> Seq<char> {
    match event {
        RunEvent::Folder(_) => "Meeting "@ + meeting + " has no associated folder path"@,
        RunEvent::Missing(path) => "Audio file not found at: "@ + path@,
        RunEvent::Panicked(detail) => (match step {
            RunStep::Decode => "Decoding task panicked: "@,
            RunStep::Resample => "Resampling task panicked: "@,
            _ => "Diarization pipeline task panicked: "@,
        }) + detail@,
        RunEvent::Failed(detail) => match step {
            RunStep::FetchState => "App state not available"@,
            RunStep::FetchFolder => "Database error fetching meeting: "@ + detail@,
            RunStep::EnsureModels => detail@,
            RunStep::Decode => "Audio decoding failed: "@ + detail@,
            RunStep::Diarize => "Diarization failed: "@ + detail@,
            RunStep::LoadTranscripts => "Failed to fetch transcripts: "@ + detail@,
            RunStep::BeginUpdates => "Failed to start database transaction: "@ + detail@,
            RunStep::UpdateSpeaker(_) => "Failed to update speaker field: "@ + detail@,
            _ => "Failed to commit database updates: "@ + detail@,
        },
        _ => Seq::empty(),
    }
}

/// Whether a notice is about progress or says that the run is complete.
#[derive(Debug, Clone, Copy, PartialEq, Eq, Structural)]
pub enum Channel {
    Progress,
    Complete,
}

impl Channel {
    /// The name under which listeners hear of the notice.
    pub fn name(&self) -> (name: &'static str)
        ensures
            name@ == (match self {
                Channel::Progress => "diarization-progress"@,
                Channel::Complete => "diarization-complete"@,
            }),
    {
        match self {
            Channel::Progress => "diarization-progress",
            Channel::Complete => "diarization-complete",
        }
    }
}

/// How a run stands.
#[derive(Debug, Clone, Copy, PartialEq, Eq, Structural)]
pub enum Status {
    Started,
    Downloading,
    Decoding,
    Diarizing,
    Aligning,
    Success,
    Failed,
}

impl Status {
    /// The status in one word.
    pub fn word(&self) -> (word: &'static str)
        ensures
            word@ == (match self {
                Status::Started => "started"@,
                Status::Downloading => "downloading"@,
                Status::Decoding => "decoding"@,
                Status::Diarizing => "diarizing"@,
                Status::Aligning => "aligning"@,
                Status::Success => "success"@,
                Status::Failed => "failed"@,
            }),
    {
        match self {
            Status::Started => "started",
            Status::Downloading => "downloading",
            Status::Decoding => "decoding",
            Status::Diarizing => "diarizing",
            Status::Aligning => "aligning",
            Status::Success => "success",
            Status::Failed => "failed",
        }
    }
}

/// What listeners are told of a run.
#[derive(Debug)]
pub struct Notice {
    pub channel: Channel,
    pub status: Status,
    /// How far the run has come, in percent.
    pub progress: u8,
    pub message: Option<String>,
}

/// What a notice says, with its message as a sequence of characters.
pub struct Told {
    pub channel: Channel,
    pub status: Status,
    pub progress: u8,
    pub message: Option<Seq<char>>,
}

impl View for Notice {
    type V = Told;

    open spec fn view(&self) -> Told {
        Told {
            channel: self.channel,
            status: self.status,
            progress: self.progress,
            message: match self.message {
                Some(text) => Some(text@),
                None => None,
            },
        }
    }
}

/// What listeners are told when a run comes to a step, if anything; `why` is the
/// reason if that step is the end of a run that was given up.
pub open spec fn told_at(step: RunStep, why: Seq<char>) -> Option<Told> {
    match step {
        RunStep::FetchState => Some(
            Told {
                channel: Channel::Progress,
                status: Status::Started,
                progress: 0,
                message: Some("Starting diarization process..."@),
            },
        ),
        RunStep::EnsureModels => Some(
            Told {
                channel: Channel::Progress,
                status: Status::Downloading,
                progress: 5,
                message: Some("Ensuring diarization models are downloaded..."@),
            },
        ),
        RunStep::Decode => Some(
            Told {
                channel: Channel::Progress,
                status: Status::Decoding,
                progress: 20,
                message: Some("Decoding meeting audio..."@),
            },
        ),
        RunStep::Diarize => Some(
            Told {
                channel: Channel::Progress,
                status: Status::Diarizing,
                progress: 50,
                message: Some("Running speaker diarization pipeline..."@),
            },
        ),
        RunStep::LoadTranscripts => Some(
            Told {
                channel: Channel::Progress,
                status: Status::Aligning,
                progress: 85,
                message: Some("Aligning speaker segments..."@),
            },
        ),
        RunStep::Completed => Some(
            Told {
                channel: Channel::Complete,
                status: Status::Success,
                progress: 100,
                message: None,
            },
        ),
        RunStep::Failed => Some(
            Told {
                channel: Channel::Progress,
                status: Status::Failed,
                progress: 0,
                message: Some("Diarization error: "@ + why),
            },
        ),
        _ => None,
    }
}

/// A notice that may be missing, by what it says.
pub open spec fn told(notice: Option<Notice>) -> Option<Told> {
    match notice {
        Some(n) => Some(n@),
        None => None,
    }
}

fn progress_notice(status: Status, progress: u8, message: &str) -> (notice: Notice)
    ensures
        notice@ == (Told {
            channel: Channel::Progress,
            status,
            progress,
            message: Some(message@),
        }),
{
    Notice {
        channel: Channel::Progress,
        status,
        progress,
        message: Some(message.to_owned()),
    }
}

fn notice_at(step: RunStep, why: &str) -> (notice: Option<Notice>)
    ensures
        told(notice) == told_at(step, why@),
{
    match step {
        RunStep::FetchState => Some(
            progress_notice(Status::Started, 0, "Starting diarization process..."),
        ),
        RunStep::EnsureModels => Some(
            progress_notice(
                Status::Downloading,
                5,
                "Ensuring diarization models are downloaded...",
            ),
        ),
        RunStep::Decode => Some(
            progress_notice(Status::Decoding, 20, "Decoding meeting audio..."),
        ),
        RunStep::Diarize => Some(
            progress_notice(Status::Diarizing, 50, "Running speaker diarization pipeline..."),
        ),
        RunStep::LoadTranscripts => Some(
            progress_notice(Status::Aligning, 85, "Aligning speaker segments..."),
        ),
        RunStep::Completed => Some(
            Notice {
                channel: Channel::Complete,
                status: Status::Success,
                progress: 100,
                message: None,
            },
        ),
        RunStep::Failed => {
            let message: String = concatenated("Diarization error: ", why);
            Some(progress_notice(Status::Failed, 0, message.as_str()))
        },
        _ => None,
    }
}

/// What one step of a run leads to.
#[derive(Debug)]
pub struct Advance {
    /// What listeners are told.
    pub notice: Option<Notice>,
    /// Why the run was given up, if it was.
    pub failure: Option<String>,
}

/// One run of the pipeline.
#[derive(Debug)]
pub struct DiarizationRun {
    pub meeting_id: String,
    pub step: RunStep,
    /// How many lines of the transcript are to be stored.
    pub lines: usize,
}

impl DiarizationRun {
    /// A line that is being stored is a line of the transcript.
    pub open spec fn valid(self) -> bool {
        self.step matches RunStep::UpdateSpeaker(line) ==> line < self.lines
    }

    /// The run after one more step, which ended with this event.
    pub open spec fn after(self, event: RunEvent) -> Self {
        let lines = match event {
            RunEvent::Lines(n) => n,
            _ => self.lines,
        };
        DiarizationRun {
            meeting_id: self.meeting_id,
            step: run_next(self.step, event, lines),
            lines,
        }
    }

    /// Starts a run, and says what listeners are told.
    pub fn start(meeting_id: String) -> (started: (Self, Option<Notice>))
        ensures
            started.0.valid(),
            started.0.meeting_id == meeting_id,
            started.0.step == RunStep::FetchState,
            started.0.lines == 0,
            told(started.1) == told_at(RunStep::FetchState, Seq::empty()),
    {
        (
            DiarizationRun { meeting_id, step: RunStep::FetchState, lines: 0 },
            notice_at(RunStep::FetchState, ""),
        )
    }

    /// Why the run is given up.
    fn failure(&self, event: &RunEvent) -> (why: String)
        requires
            run_next(self.step, *event, self.lines) == RunStep::Failed,
            self.step != RunStep::Failed,
        ensures
            why@ == run_failure(self.meeting_id@, self.step, *event),
    {
        match event {
            RunEvent::Folder(_) => enclosed(
                "Meeting ",
                self.meeting_id.as_str(),
                " has no associated folder path",
            ),
            RunEvent::Missing(path) => concatenated("Audio file not found at: ", path.as_str()),
            RunEvent::Panicked(detail) => {
                let opening: &'static str = match self.step {
                    RunStep::Decode => "Decoding task panicked: ",
                    RunStep::Resample => "Resampling task panicked: ",
                    _ => "Diarization pipeline task panicked: ",
                };
                concatenated(opening, detail.as_str())
            },
            RunEvent::Failed(detail) => match self.step {
                RunStep::FetchState => "App state not available".to_owned(),
                RunStep::FetchFolder => concatenated(
                    "Database error fetching meeting: ",
                    detail.as_str(),
                ),
                RunStep::EnsureModels => detail.clone(),
                RunStep::Decode => concatenated("Audio decoding failed: ", detail.as_str()),
                RunStep::Diarize => concatenated("Diarization failed: ", detail.as_str()),
                RunStep::LoadTranscripts => concatenated(
                    "Failed to fetch transcripts: ",
                    detail.as_str(),
                ),
                RunStep::BeginUpdates => concatenated(
                    "Failed to start database transaction: ",
                    detail.as_str(),
                ),
                RunStep::UpdateSpeaker(_) => concatenated(
                    "Failed to update speaker field: ",
                    detail.as_str(),
                ),
                _ => concatenated("Failed to commit database updates: ", detail.as_str()),
            },
            _ => String::new(),
        }
    }

    /// Goes on to the next step, and says what listeners are told and, if the run
    /// is given up, why.
    pub fn advance(&mut self, event: RunEvent) -> (advance: Advance)
        requires
            old(self).valid(),
            run_fits(old(self).step, event),
        ensures
            final(self).valid(),
            *final(self) == old(self).after(event),
            told(advance.notice) == told_at(
                final(self).step,
                run_failure(old(self).meeting_id@, old(self).step, event),
            ),
            match advance.failure {
                Some(why) => final(self).step == RunStep::Failed && why@ == run_failure(
                    old(self).meeting_id@,
                    old(self).step,
                    event,
                ),
                None => final(self).step != RunStep::Failed,
            },
    {
        let gives_up: bool = match event {
            RunEvent::Failed(_) | RunEvent::Panicked(_) | RunEvent::Missing(_) => true,
            RunEvent::Folder(found) => !found,
            _ => false,
        };
        if gives_up {
            let why: String = self.failure(&event);
            self.step = RunStep::Failed;
            return Advance {
                notice: notice_at(RunStep::Failed, why.as_str()),
                failure: Some(why),
            };
        }
        if let RunEvent::Lines(n) = event {
            self.lines = n;
        }
        let next: RunStep = match self.step {
            RunStep::FetchState => RunStep::FetchFolder,
            RunStep::FetchFolder => RunStep::LocateAudio,
            RunStep::LocateAudio => RunStep::EnsureModels,
            RunStep::EnsureModels => RunStep::Decode,
            RunStep::Decode => RunStep::Resample,
            RunStep::Resample => RunStep::Diarize,
            RunStep::Diarize => RunStep::LoadTranscripts,
            RunStep::LoadTranscripts => RunStep::BeginUpdates,
            RunStep::BeginUpdates => if self.lines > 0 {
                RunStep::UpdateSpeaker(0)
            } else {
                RunStep::CommitUpdates
            },
            RunStep::UpdateSpeaker(line) => if line + 1 < self.lines {
                RunStep::UpdateSpeaker(line + 1)
            } else {
                RunStep::CommitUpdates
            },
            RunStep::CommitUpdates => RunStep::Completed,
            RunStep::Completed => RunStep::Completed,
            RunStep::Failed => RunStep::Failed,
        };
        self.step = next;
        Advance { notice: notice_at(next, ""), failure: None }
    }
}

/// What follows `~/` in a path that starts so.
pub open spec fn home_relative(folder: Seq<char>) -> Option<Seq<char>> {
    if folder.len() >= 2 && folder[0] == '~' && folder[1] == '/' {
        Some(folder.skip(2))
    } else {
        None
    }
}

/// Tells whether a folder lies under the home directory, and where there: what
/// follows `~/`, if the path starts so and the home directory is known.
pub fn under_home(folder: &str, home_known: bool) -> (rest: Option<String>)
    ensures
        rest is Some <==> home_known && home_relative(folder@) is Some,
        rest matches Some(text) ==> home_relative(folder@) == Some(text@),
{
    let length: usize = folder.unicode_len();
    if home_known && length >= 2 && folder.get_char(0) == '~' && folder.get_char(1) == '/' {
        Some(folder.substring_char(2, length).to_owned())
    } else {
        None
    }
}

/// How far a run has come at a step, in percent.
pub open spec fn progress_at(step: RunStep) -> int {
    match step {
        RunStep::FetchState => 0,
        RunStep::FetchFolder => 0,
        RunStep::LocateAudio => 0,
        RunStep::EnsureModels => 5,
        RunStep::Decode => 20,
        RunStep::Resample => 20,
        RunStep::Diarize => 50,
        RunStep::LoadTranscripts => 85,
        RunStep::BeginUpdates => 85,
        RunStep::UpdateSpeaker(_) => 85,
        RunStep::CommitUpdates => 85,
        RunStep::Completed => 100,
        RunStep::Failed => 0,
    }
}

/// What listeners are told never falls back while a run goes well, and agrees
/// with how far the run has come.
pub proof fn law_progress_never_falls(run: DiarizationRun, event: RunEvent, why: Seq<char>)
    requires
        run_fits(run.step, event),
        run.after(event).step != RunStep::Failed,
    ensures
        progress_at(run.step) <= progress_at(run.after(event).step),
        told_at(run.after(event).step, why) matches Some(t) ==> t.progress == progress_at(
            run.after(event).step,
        ),
{
}

/// A run that has ended, well or not, takes no further step; listeners are told of
/// the end, and only of it, in a notice that says success or failure.
pub proof fn law_run_ends_with_one_notice(run: DiarizationRun, event: RunEvent, why: Seq<char>)
    ensures
        run.step == RunStep::Completed || run.step == RunStep::Failed ==> !run_fits(
            run.step,
            event,
        ),
        (told_at(run.step, why) matches Some(t) && t.status == Status::Success) <==> run.step
            == RunStep::Completed,
        (told_at(run.step, why) matches Some(t) && t.status == Status::Failed) <==> run.step
            == RunStep::Failed,
{
}

/// How many steps a run has before it at most, other than storing lines that it
/// does not know of yet.
pub open spec fn steps_left(run: DiarizationRun) -> int {
    match run.step {
        RunStep::FetchState => 11,
        RunStep::FetchFolder => 10,
        RunStep::LocateAudio => 9,
        RunStep::EnsureModels => 8,
        RunStep::Decode => 7,
        RunStep::Resample => 6,
        RunStep::Diarize => 5,
        RunStep::LoadTranscripts => 4,
        RunStep::BeginUpdates => 3 + run.lines,
        RunStep::UpdateSpeaker(line) => 2 + run.lines - line,
        RunStep::CommitUpdates => 1,
        RunStep::Completed => 0,
        RunStep::Failed => 0,
    }
}

/// Every step brings a run nearer to its end, except that it learns how many lines
/// it has to store when the transcript is loaded.
pub proof fn law_every_step_leads_on(run: DiarizationRun, event: RunEvent)
    requires
        run.valid(),
        run_fits(run.step, event),
    ensures
        run.after(event).valid(),
        steps_left(run.after(event)) >= 0,
        run.step != RunStep::LoadTranscripts ==> steps_left(run.after(event)) < steps_left(run),
        event is Failed || event is Panicked || event is Missing || event == RunEvent::Folder(false)
            <==> run.after(event).step == RunStep::Failed,
{
}

/// The run after its first `n` steps, which ended with these events.
pub open spec fn carried_out(start: DiarizationRun, events: Seq<RunEvent>, n: int) -> DiarizationRun
    decreases n,
{
    if n <= 0 {
        start
    } else {
        carried_out(start, events, n - 1).after(events[n - 1])
    }
}

/// How many of the first `n` steps stored the speaker of a line.
pub open spec fn lines_stored(start: DiarizationRun, events: Seq<RunEvent>, n: int) -> int
    decreases n,
{
    if n <= 0 {
        0
    } else {
        lines_stored(start, events, n - 1) + (if carried_out(
            start,
            events,
            n - 1,
        ).step is UpdateSpeaker && events[n - 1] is Done {
            1int
        } else {
            0
        })
    }
}

/// The transaction is committed only when the speaker of every line has been
/// stored, each once.
pub proof fn law_commit_comes_after_every_line(
    start: DiarizationRun,
    events: Seq<RunEvent>,
    n: int,
)
    requires
        start.step == RunStep::FetchState,
        start.lines == 0,
        0 <= n <= events.len(),
        forall|k: int|
            0 <= k < n ==> run_fits(carried_out(start, events, k).step, #[trigger] events[k]),
    ensures
        carried_out(start, events, n).step == RunStep::CommitUpdates || carried_out(
            start,
            events,
            n,
        ).step == RunStep::Completed ==> lines_stored(start, events, n) == carried_out(
            start,
            events,
            n,
        ).lines,
{
    lemma_lines_stored(start, events, n);
}

proof fn lemma_lines_stored(start: DiarizationRun, events: Seq<RunEvent>, n: int)
    requires
        start.step == RunStep::FetchState,
        start.lines == 0,
        0 <= n <= events.len(),
        forall|k: int|
            0 <= k < n ==> run_fits(carried_out(start, events, k).step, #[trigger] events[k]),
    ensures
        ({
            let run = carried_out(start, events, n);
            &&& run.valid()
            &&& run.step != RunStep::Failed ==> lines_stored(start, events, n) == (match run.step {
                RunStep::UpdateSpeaker(line) => line as int,
                RunStep::CommitUpdates => run.lines as int,
                RunStep::Completed => run.lines as int,
                _ => 0,
            })
        }),
    decreases n,
{
    if n > 0 {
        lemma_lines_stored(start, events, n - 1);
        assert(run_fits(carried_out(start, events, n - 1).step, events[n - 1]));
    }
}

/// A step failed with this event.
pub open spec fn fails(event: RunEvent) -> bool {
    event is Failed || event is Panicked || event is Missing || event == RunEvent::Folder(false)
}

/// As long as nothing fails, a run takes every step in turn: it gets hold of the state,
/// the folder, the recording and the models, decodes, resamples, diarizes, loads the
/// transcript, stores the speaker of each line from the first to the last, and commits.
pub proof fn law_run_takes_every_step_in_turn(
    start: DiarizationRun,
    events: Seq<RunEvent>,
    n: int,
)
    requires
        start.step == RunStep::FetchState,
        start.lines == 0,
        0 <= n <= events.len(),
        forall|k: int|
            0 <= k < n ==> run_fits(carried_out(start, events, k).step, #[trigger] events[k]),
        forall|k: int| 0 <= k < n ==> !fails(#[trigger] events[k]),
    ensures
        ({
            let run = carried_out(start, events, n);
            &&& n == 0 ==> run.step == RunStep::FetchState
            &&& n == 1 ==> run.step == RunStep::FetchFolder
            &&& n == 2 ==> run.step == RunStep::LocateAudio
            &&& n == 3 ==> run.step == RunStep::EnsureModels
            &&& n == 4 ==> run.step == RunStep::Decode
            &&& n == 5 ==> run.step == RunStep::Resample
            &&& n == 6 ==> run.step == RunStep::Diarize
            &&& n == 7 ==> run.step == RunStep::LoadTranscripts
            &&& n == 8 ==> run.step == RunStep::BeginUpdates
            &&& n >= 8 ==> events[7] == RunEvent::Lines(run.lines)
            &&& 9 <= n < 9 + run.lines ==> run.step == RunStep::UpdateSpeaker((n - 9) as usize)
            &&& n >= 9 && n == 9 + run.lines ==> run.step == RunStep::CommitUpdates
            &&& n >= 9 && n == 10 + run.lines ==> run.step == RunStep::Completed
            &&& n >= 9 ==> n <= 10 + run.lines
            &&& run.meeting_id == start.meeting_id
        }),
    decreases n,
{
    if n > 0 {
        law_run_takes_every_step_in_turn(start, events, n - 1);
        assert(run_fits(carried_out(start, events, n - 1).step, events[n - 1]));
        assert(!fails(events[n - 1]));
    }
}

/// The first step that fails ends a run.
pub proof fn law_failing_ends_a_run(run: DiarizationRun, event: RunEvent)
    requires
        run_fits(run.step, event),
    ensures
        run.after(event).step == RunStep::Failed <==> fails(event),
{
}

/// The text is another one between two more.
pub open spec fn is_between(
    text: Seq<char>,
    before: Seq<char>,
    middle: Seq<char>,
    after: Seq<char>,
) -> bool {
    text == before + middle + after
}

/// The reason that a run gives for its failure ends with what the failing step says of
/// it; it names the meeting that has no folder. Only that the state of the application is
/// not there is said in one way.
pub proof fn law_reasons_say_what_the_step_says(
    meeting: Seq<char>,
    step: RunStep,
    event: RunEvent,
)
    requires
        run_fits(step, event),
        fails(event),
    ensures
        match event {
            RunEvent::Failed(detail) => step == RunStep::FetchState || text::ends_with(
                run_failure(meeting, step, event),
                detail@,
            ),
            RunEvent::Panicked(detail) => text::ends_with(
                run_failure(meeting, step, event),
                detail@,
            ),
            RunEvent::Missing(path) => text::ends_with(run_failure(meeting, step, event), path@),
            _ => exists|before: Seq<char>, after: Seq<char>| #[trigger]
                is_between(run_failure(meeting, step, event), before, meeting, after),
        },
{
    let reason = run_failure(meeting, step, event);
    match event {
        RunEvent::Failed(detail) => {
            if step != RunStep::FetchState {
                assert(reason.skip(reason.len() - detail@.len()) =~= detail@);
            }
        },
        RunEvent::Panicked(detail) => {
            assert(reason.skip(reason.len() - detail@.len()) =~= detail@);
        },
        RunEvent::Missing(path) => {
            assert(reason.skip(reason.len() - path@.len()) =~= path@);
        },
        _ => {
            assert(is_between(reason, "Meeting "@, meeting, " has no associated folder path"@));
        },
    }
}

/// A folder lies under a known home directory exactly when its path starts with `~/`,
/// and then is that and what follows.
pub proof fn law_folders_under_home_follow_the_tilde(
    folder: &str,
    home_known: bool,
    rest: Option<String>,
)
    requires
        call_ensures(under_home, (folder, home_known), rest),
    ensures
        match rest {
            Some(text) => home_known && folder@ == seq!['~', '/'] + text@,
            None => !home_known || folder@.len() < 2 || folder@[0] != '~' || folder@[1] != '/',
        },
{
    if let Some(text) = rest {
        assert(folder@ =~= seq!['~', '/'] + text@);
    }
}

/// Whatever they say, failures of different steps never give the same reason.
pub proof fn law_reasons_tell_steps_apart(
    meeting: Seq<char>,
    step: RunStep,
    other: RunStep,
    event: RunEvent,
)
    requires
        run_fits(step, event),
        run_fits(other, event),
        event is Failed || event is Panicked,
        !(step is UpdateSpeaker && other is UpdateSpeaker),
        step != RunStep::FetchState,
        other != RunStep::FetchState,
    ensures
        run_failure(meeting, step, event) == run_failure(meeting, other, event) <==> step == other,
{
    reveal_strlit("Decoding task panicked: ");
    reveal_strlit("Resampling task panicked: ");
    reveal_strlit("Diarization pipeline task panicked: ");
    reveal_strlit("Database error fetching meeting: ");
    reveal_strlit("Audio decoding failed: ");
    reveal_strlit("Diarization failed: ");
    reveal_strlit("Failed to fetch transcripts: ");
    reveal_strlit("Failed to start database transaction: ");
    reveal_strlit("Failed to update speaker field: ");
    reveal_strlit("Failed to commit database updates: ");
    let (one, two) = (run_failure(meeting, step, event), run_failure(meeting, other, event));
    if step != other {
        assert(one.len() != two.len());
    }
}

/// Which events can end a step: what comes of it, and what can go wrong with it.
pub proof fn law_steps_end_as_they_can(step: RunStep, event: RunEvent)
    ensures
        event is Done ==> (run_fits(step, event) <==> !(step is FetchFolder
            || step is LoadTranscripts || step is Completed || step is Failed)),
        event is Folder ==> (run_fits(step, event) <==> step is FetchFolder),
        event is Missing ==> (run_fits(step, event) <==> step is LocateAudio),
        event is Lines ==> (run_fits(step, event) <==> step is LoadTranscripts),
        event is Failed ==> (run_fits(step, event) <==> !(step is LocateAudio || step is Resample
            || step is Completed || step is Failed)),
        event is Panicked ==> (run_fits(step, event) <==> step is Decode || step is Resample
            || step is Diarize),
{
}

/// A run starts with a notice that it has started, at the first step.
pub proof fn law_runs_start_with_a_notice(
    meeting_id: String,
    started: (DiarizationRun, Option<Notice>),
)
    requires
        call_ensures(DiarizationRun::start, (meeting_id,), started),
    ensures
        started.0.step == RunStep::FetchState,
        started.0.meeting_id == meeting_id,
        started.0.lines == 0,
        started.1 matches Some(notice) && notice.channel == Channel::Progress && notice.status
            == Status::Started && notice.progress == 0 && notice.message is Some,
{
}

/// Listeners are told of a run when it comes to the models, to decoding, to diarizing, to
/// the transcript and to its end: at 5, 20, 50, 85 and 100 percent, each with its status.
/// Of a failure they are told the reason, behind `Diarization error: `, and of success
/// under a name of its own and without a message.
pub proof fn law_listeners_are_told_where_a_run_stands(step: RunStep, why: Seq<char>)
    ensures
        match told_at(step, why) {
            Some(told) => {
                &&& (told.channel == Channel::Complete <==> step == RunStep::Completed)
                &&& (told.message is None <==> step == RunStep::Completed)
                &&& (told.status == Status::Started && told.progress == 0 <==> step
                    == RunStep::FetchState)
                &&& (told.status == Status::Downloading && told.progress == 5 <==> step
                    == RunStep::EnsureModels)
                &&& (told.status == Status::Decoding && told.progress == 20 <==> step
                    == RunStep::Decode)
                &&& (told.status == Status::Diarizing && told.progress == 50 <==> step
                    == RunStep::Diarize)
                &&& (told.status == Status::Aligning && told.progress == 85 <==> step
                    == RunStep::LoadTranscripts)
                &&& (told.status == Status::Success && told.progress == 100 <==> step
                    == RunStep::Completed)
                &&& (told.status == Status::Failed && told.progress == 0 <==> step
                    == RunStep::Failed)
                &&& step == RunStep::Failed ==> told.message == Some("Diarization error: "@ + why)
            },
            None => step is FetchFolder || step is LocateAudio || step is Resample
                || step is BeginUpdates || step is UpdateSpeaker || step is CommitUpdates,
        },
        told_at(step, why) is Some ==> !(step is FetchFolder || step is LocateAudio
            || step is Resample || step is BeginUpdates || step is UpdateSpeaker
            || step is CommitUpdates),
{
}

} // verus!
