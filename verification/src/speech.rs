//! Speech-to-text by segments: what is done in which order, and what comes out.
//!
//! The work itself (network, files, the splitting command) is done by whoever
//! drives a [`ChunkTranscription`]: it performs each [`SpeechAction`] and reports
//! back with a [`SpeechEvent`] until the action is [`SpeechAction::Finish`].
use vstd::prelude::*;
use crate::audio;
use crate::chunks;
use crate::chunks::{SplitArg, SplitArgView};
use crate::text;

verus! {

/// Hard ceiling on the audio file that is downloaded, in bytes.
pub const MAX_AUDIO_BYTES: u64 = 524_288_000;

/// What every segment that is sent off stays below, in bytes: 25 MB, in the
/// smaller of the two meanings of a megabyte.
pub const CHUNK_BYTES_BOUND: u64 = 25_000_000;

/// What is to be done next.
#[derive(Debug)]
pub enum SpeechAction {
    /// Create a workspace of its own for this episode.
    CreateWorkspace,
    /// Request the audio at this address.
    Request(String),
    /// Read the answer and store it in the workspace under this name.
    Store(String),
    /// Run `ffmpeg` with these arguments, which split the audio into segments.
    Split(Vec<SplitArg>),
    /// List the names of the files in the workspace.
    ListFiles,
    /// Run `ffmpeg` with these arguments, which trim a segment.
    Trim(Vec<SplitArg>),
    /// Read this file of the workspace.
    ReadChunk(String),
    /// Have what was read transcribed, under this file name and media type.
    Upload(String, String),
    /// Remove the workspace.
    RemoveWorkspace,
    /// Nothing: this is the transcript, or there is none.
    Finish(Option<String>),
}

/// What a [`SpeechAction`] holds.
pub enum SpeechActionView {
    CreateWorkspace,
    Request(Seq<char>),
    Store(Seq<char>),
    Split(Seq<SplitArgView>),
    ListFiles,
    Trim(Seq<SplitArgView>),
    ReadChunk(Seq<char>),
    Upload(Seq<char>, Seq<char>),
    RemoveWorkspace,
    Finish(Option<Seq<char>>),
}

impl DeepView for SpeechAction {
    type V = SpeechActionView;

    open spec fn deep_view(&self) -> SpeechActionView {
        match self {
            SpeechAction::CreateWorkspace => SpeechActionView::CreateWorkspace,
            SpeechAction::Request(url) => SpeechActionView::Request(url@),
            SpeechAction::Store(name) => SpeechActionView::Store(name@),
            SpeechAction::Split(args) => SpeechActionView::Split(args.deep_view()),
            SpeechAction::ListFiles => SpeechActionView::ListFiles,
            SpeechAction::Trim(args) => SpeechActionView::Trim(args.deep_view()),
            SpeechAction::ReadChunk(name) => SpeechActionView::ReadChunk(name@),
            SpeechAction::Upload(name, mime) => SpeechActionView::Upload(name@, mime@),
            SpeechAction::RemoveWorkspace => SpeechActionView::RemoveWorkspace,
            SpeechAction::Finish(text) => SpeechActionView::Finish(text.deep_view()),
        }
    }
}

/// What came of an action.
#[derive(Debug)]
pub enum SpeechEvent {
    /// Whether the workspace was created.
    WorkspaceCreated(bool),
    /// Whether the request was answered with success, and the length that the
    /// answer states for the audio.
    Answered(bool, Option<u64>),
    /// The number of bytes that were stored; `None` where that failed.
    Stored(Option<u64>),
    /// Whether the splitting command ran with success.
    SplitDone(bool),
    /// The names of the files in the workspace.
    FilesListed(Vec<String>),
    /// Whether the trimming command ran with success.
    Trimmed(bool),
    /// The size of the file that was read, in bytes; `None` where that failed.
    ChunkRead(Option<u64>),
    /// The transcript of the segment; `None` where there is none.
    Transcribed(Option<String>),
    /// The workspace was removed, as far as that was possible.
    WorkspaceRemoved,
}

/// What a [`SpeechEvent`] holds.
pub enum SpeechEventView {
    WorkspaceCreated(bool),
    Answered(bool, Option<u64>),
    Stored(Option<u64>),
    SplitDone(bool),
    FilesListed(Seq<Seq<char>>),
    Trimmed(bool),
    ChunkRead(Option<u64>),
    Transcribed(Option<Seq<char>>),
    WorkspaceRemoved,
}

impl DeepView for SpeechEvent {
    type V = SpeechEventView;

    open spec fn deep_view(&self) -> SpeechEventView {
        match self {
            SpeechEvent::WorkspaceCreated(done) => SpeechEventView::WorkspaceCreated(*done),
            SpeechEvent::Answered(success, length) => SpeechEventView::Answered(*success, *length),
            SpeechEvent::Stored(bytes) => SpeechEventView::Stored(*bytes),
            SpeechEvent::SplitDone(success) => SpeechEventView::SplitDone(*success),
            SpeechEvent::FilesListed(names) => SpeechEventView::FilesListed(names.deep_view()),
            SpeechEvent::Trimmed(success) => SpeechEventView::Trimmed(*success),
            SpeechEvent::ChunkRead(bytes) => SpeechEventView::ChunkRead(*bytes),
            SpeechEvent::Transcribed(text) => SpeechEventView::Transcribed(text.deep_view()),
            SpeechEvent::WorkspaceRemoved => SpeechEventView::WorkspaceRemoved,
        }
    }
}

/// The segments, the one that is next, and the transcript of those before it.
#[derive(Debug)]
pub struct Progress {
    pub chunks: Vec<String>,
    pub index: usize,
    pub transcript: String,
}

/// What a [`Progress`] holds.
pub struct ProgressView {
    pub chunks: Seq<Seq<char>>,
    pub index: nat,
    pub transcript: Seq<char>,
}

impl DeepView for Progress {
    type V = ProgressView;

    open spec fn deep_view(&self) -> ProgressView {
        ProgressView {
            chunks: self.chunks.deep_view(),
            index: self.index as nat,
            transcript: self.transcript@,
        }
    }
}

/// What a transcription waits for.
#[derive(Debug)]
pub enum Phase {
    Workspace,
    Answer,
    Storage,
    Split,
    Files,
    Trim(Progress),
    Chunk(Progress),
    Part(Progress),
    Removal(Option<String>),
    Done,
}

/// What a [`Phase`] holds.
pub enum PhaseView {
    Workspace,
    Answer,
    Storage,
    Split,
    Files,
    Trim(ProgressView),
    Chunk(ProgressView),
    Part(ProgressView),
    Removal(Option<Seq<char>>),
    Done,
}

impl DeepView for Phase {
    type V = PhaseView;

    open spec fn deep_view(&self) -> PhaseView {
        match self {
            Phase::Workspace => PhaseView::Workspace,
            Phase::Answer => PhaseView::Answer,
            Phase::Storage => PhaseView::Storage,
            Phase::Split => PhaseView::Split,
            Phase::Files => PhaseView::Files,
            Phase::Trim(progress) => PhaseView::Trim(progress.deep_view()),
            Phase::Chunk(progress) => PhaseView::Chunk(progress.deep_view()),
            Phase::Part(progress) => PhaseView::Part(progress.deep_view()),
            Phase::Removal(text) => PhaseView::Removal(text.deep_view()),
            Phase::Done => PhaseView::Done,
        }
    }
}

/// The transcription of one episode, segment by segment.
#[derive(Debug)]
pub struct ChunkTranscription {
    pub audio_url: String,
    /// How many minutes of audio are transcribed at most.
    pub max_minutes: u32,
    pub phase: Phase,
}

/// What a [`ChunkTranscription`] holds.
pub struct TranscriptionView {
    pub audio_url: Seq<char>,
    pub max_minutes: nat,
    pub phase: PhaseView,
}

impl DeepView for ChunkTranscription {
    type V = TranscriptionView;

    open spec fn deep_view(&self) -> TranscriptionView {
        TranscriptionView {
            audio_url: self.audio_url@,
            max_minutes: self.max_minutes as nat,
            phase: self.phase.deep_view(),
        }
    }
}

// ---------------------------------------------------------------------------
// The rules
// ---------------------------------------------------------------------------

/// Whether audio of this size is downloaded.
pub open spec fn within_ceiling(bytes: u64) -> bool {
    bytes <= MAX_AUDIO_BYTES
}

/// Tests whether audio of this size is downloaded.
pub fn fits_ceiling(bytes: u64) -> (r: bool)
    ensures
        r == within_ceiling(bytes),
{
    bytes <= MAX_AUDIO_BYTES
}

/// Whether a segment of this size is sent off.
pub open spec fn within_chunk_bound(bytes: u64) -> bool {
    bytes < CHUNK_BYTES_BOUND
}

/// Tests whether a segment of this size is sent off.
pub fn fits_chunk_bound(bytes: u64) -> (r: bool)
    ensures
        r == within_chunk_bound(bytes),
{
    bytes < CHUNK_BYTES_BOUND
}

/// A transcript with the transcript of one more segment after it, set off by a
/// space. A segment without a transcript leaves it as it is.
pub open spec fn with_part(transcript: Seq<char>, part: Option<Seq<char>>) -> Seq<char> {
    match part {
        None => transcript,
        Some(text) => if transcript.len() == 0 {
            text
        } else {
            transcript + " "@ + text
        },
    }
}

/// What a transcript counts for: nothing where it is blank.
pub open spec fn worth(transcript: Seq<char>) -> Option<Seq<char>> {
    if text::is_blank(transcript) {
        None
    } else {
        Some(transcript)
    }
}

/// The state that waits for `phase`.
pub open spec fn waiting(state: TranscriptionView, phase: PhaseView) -> TranscriptionView {
    TranscriptionView { phase, ..state }
}

/// On to the removal of the workspace, with this outcome.
pub open spec fn leave(
    state: TranscriptionView,
    outcome: Option<Seq<char>>,
) -> (TranscriptionView, SpeechActionView) {
    (waiting(state, PhaseView::Removal(outcome)), SpeechActionView::RemoveWorkspace)
}

/// On to the next segment, or to the end where there is none. A segment that the
/// limit has no room for in full is trimmed first.
pub open spec fn go_on(state: TranscriptionView, progress: ProgressView) -> (
    TranscriptionView,
    SpeechActionView,
) {
    if progress.index < progress.chunks.len() {
        let name = progress.chunks[progress.index as int];
        let room = chunks::room_for(progress.index, state.max_minutes);
        if room < chunks::SEGMENT_MINUTES {
            (
                waiting(state, PhaseView::Trim(progress)),
                SpeechActionView::Trim(
                    chunks::trim_args_of(name, room, audio::ext_of(state.audio_url)),
                ),
            )
        } else {
            (waiting(state, PhaseView::Chunk(progress)), SpeechActionView::ReadChunk(name))
        }
    } else {
        leave(state, worth(progress.transcript))
    }
}

/// On past a segment, which leaves the transcript as it is.
pub open spec fn pass_over(state: TranscriptionView, progress: ProgressView) -> (
    TranscriptionView,
    SpeechActionView,
) {
    go_on(state, ProgressView { index: progress.index + 1, ..progress })
}

/// The segments that are transcribed: the first ones, up to the limit.
pub open spec fn first_chunks(chunks: Seq<Seq<char>>, limit: nat) -> Seq<Seq<char>> {
    if chunks.len() <= limit {
        chunks
    } else {
        chunks.take(limit as int)
    }
}

/// The next state and action after an event. A segment that cannot be trimmed or
/// read, or is too large to be sent off, is passed over. Any other failure, or an event
/// that does not answer the action, gives the episode up; the workspace is
/// removed in any case.
pub open spec fn speech_step(state: TranscriptionView, event: SpeechEventView) -> (
    TranscriptionView,
    SpeechActionView,
) {
    let ext = audio::ext_of(state.audio_url);
    match (state.phase, event) {
        (PhaseView::Workspace, SpeechEventView::WorkspaceCreated(true)) => (
            waiting(state, PhaseView::Answer),
            SpeechActionView::Request(state.audio_url),
        ),
        (PhaseView::Workspace, _) => (
            waiting(state, PhaseView::Done),
            SpeechActionView::Finish(None),
        ),
        (PhaseView::Answer, SpeechEventView::Answered(true, length)) => if length matches Some(
            bytes,
        ) && !within_ceiling(bytes) {
            leave(state, None)
        } else {
            (
                waiting(state, PhaseView::Storage),
                SpeechActionView::Store(chunks::episode_name(ext)),
            )
        },
        (PhaseView::Storage, SpeechEventView::Stored(Some(bytes))) => if within_ceiling(bytes) {
            (
                waiting(state, PhaseView::Split),
                SpeechActionView::Split(chunks::split_args_of(ext)),
            )
        } else {
            leave(state, None)
        },
        (PhaseView::Split, SpeechEventView::SplitDone(true)) => (
            waiting(state, PhaseView::Files),
            SpeechActionView::ListFiles,
        ),
        (PhaseView::Files, SpeechEventView::FilesListed(names)) => go_on(
            state,
            ProgressView {
                chunks: first_chunks(
                    chunks::ordered_chunks(names, ext),
                    chunks::chunk_limit(state.max_minutes),
                ),
                index: 0,
                transcript: Seq::empty(),
            },
        ),
        (PhaseView::Trim(progress), SpeechEventView::Trimmed(success)) => if success {
            (
                waiting(state, PhaseView::Chunk(progress)),
                SpeechActionView::ReadChunk(chunks::trimmed_name(ext)),
            )
        } else {
            pass_over(state, progress)
        },
        (PhaseView::Chunk(progress), SpeechEventView::ChunkRead(read)) => if read matches Some(
            bytes,
        ) && within_chunk_bound(bytes) {
            (
                waiting(state, PhaseView::Part(progress)),
                SpeechActionView::Upload(
                    chunks::chunk_name(progress.index, ext),
                    audio::mime_of(ext),
                ),
            )
        } else {
            pass_over(state, progress)
        },
        (PhaseView::Part(progress), SpeechEventView::Transcribed(part)) => go_on(
            state,
            ProgressView {
                chunks: progress.chunks,
                index: progress.index + 1,
                transcript: with_part(progress.transcript, part),
            },
        ),
        (PhaseView::Removal(outcome), _) => (
            waiting(state, PhaseView::Done),
            SpeechActionView::Finish(outcome),
        ),
        (PhaseView::Done, _) => (state, SpeechActionView::Finish(None)),
        _ => leave(state, None),
    }
}

/// The first state and action: without an API key there is nothing to be done.
pub open spec fn speech_start(api_key: Seq<char>, audio_url: Seq<char>, max_minutes: nat) -> (
    TranscriptionView,
    SpeechActionView,
) {
    if api_key.len() == 0 {
        (
            TranscriptionView { audio_url, max_minutes, phase: PhaseView::Done },
            SpeechActionView::Finish(None),
        )
    } else {
        (
            TranscriptionView { audio_url, max_minutes, phase: PhaseView::Workspace },
            SpeechActionView::CreateWorkspace,
        )
    }
}

// ---------------------------------------------------------------------------
// The machine
// ---------------------------------------------------------------------------

/// Begins the transcription of an episode.
pub fn transcribe_by_chunks(api_key: &str, audio_url: &str, max_minutes: u32) -> (r: (
    ChunkTranscription,
    SpeechAction,
))
    ensures
        (r.0.deep_view(), r.1.deep_view()) == speech_start(
            api_key@,
            audio_url@,
            max_minutes as nat,
        ),
        speech_wf(r.0.deep_view()),
{
    let audio_url = audio_url.to_owned();
    if api_key.is_empty() {
        (
            ChunkTranscription { audio_url, max_minutes, phase: Phase::Done },
            SpeechAction::Finish(None),
        )
    } else {
        (
            ChunkTranscription { audio_url, max_minutes, phase: Phase::Workspace },
            SpeechAction::CreateWorkspace,
        )
    }
}

/// Whether the segment that is next is one of the segments, and those are no more
/// than the limit has room for.
pub open spec fn within_limit(progress: ProgressView, max_minutes: nat) -> bool {
    progress.index < progress.chunks.len() <= chunks::chunk_limit(max_minutes)
}

/// Whether a state can come up: a segment is next that the limit has room for,
/// in part where it is to be trimmed, and no outcome is blank.
pub open spec fn speech_wf(state: TranscriptionView) -> bool {
    match state.phase {
        PhaseView::Trim(progress) => within_limit(progress, state.max_minutes),
        PhaseView::Chunk(progress) => within_limit(progress, state.max_minutes),
        PhaseView::Part(progress) => within_limit(progress, state.max_minutes),
        PhaseView::Removal(Some(transcript)) => !text::is_blank(transcript),
        _ => true,
    }
}

impl ChunkTranscription {
    fn leave(self, outcome: Option<String>) -> (r: (ChunkTranscription, SpeechAction))
        ensures
            (r.0.deep_view(), r.1.deep_view()) == leave(self.deep_view(), outcome.deep_view()),
    {
        (
            ChunkTranscription {
                audio_url: self.audio_url,
                max_minutes: self.max_minutes,
                phase: Phase::Removal(outcome),
            },
            SpeechAction::RemoveWorkspace,
        )
    }

    fn wait(self, phase: Phase) -> (r: ChunkTranscription)
        ensures
            r.deep_view() == waiting(self.deep_view(), phase.deep_view()),
    {
        ChunkTranscription { audio_url: self.audio_url, max_minutes: self.max_minutes, phase }
    }

    fn go_on(self, progress: Progress) -> (r: (ChunkTranscription, SpeechAction))
        ensures
            (r.0.deep_view(), r.1.deep_view()) == go_on(self.deep_view(), progress.deep_view()),
    {
        if progress.index < progress.chunks.len() {
            let name = progress.chunks[progress.index].clone();
            assert(progress.deep_view().chunks[progress.index as int] == name@);
            let room: u32 = chunks::minutes_for(progress.index, self.max_minutes);
            if room < chunks::SEGMENT_MINUTES {
                let ext = audio::audio_ext(self.audio_url.as_str());
                let args = chunks::trim_args(name.as_str(), room, ext);
                (self.wait(Phase::Trim(progress)), SpeechAction::Trim(args))
            } else {
                (self.wait(Phase::Chunk(progress)), SpeechAction::ReadChunk(name))
            }
        } else if text::trim(progress.transcript.as_str()).is_empty() {
            self.leave(None)
        } else {
            self.leave(Some(progress.transcript))
        }
    }

    fn pass_over(self, progress: Progress) -> (r: (ChunkTranscription, SpeechAction))
        requires
            progress.index < progress.chunks.len(),
        ensures
            (r.0.deep_view(), r.1.deep_view()) == pass_over(self.deep_view(), progress.deep_view()),
    {
        let Progress { chunks, index, transcript } = progress;
        self.go_on(Progress { chunks, index: index + 1, transcript })
    }

    /// Takes in what came of the last action, and says what is to be done next.
    pub fn step(self, event: SpeechEvent) -> (r: (ChunkTranscription, SpeechAction))
        requires
            speech_wf(self.deep_view()),
        ensures
            (r.0.deep_view(), r.1.deep_view()) == speech_step(self.deep_view(), event.deep_view()),
            speech_wf(r.0.deep_view()),
            r.1.deep_view() matches SpeechActionView::Finish(Some(text)) ==> !text::is_blank(text),
    {
        let ext = audio::audio_ext(self.audio_url.as_str());
        let ChunkTranscription { audio_url, max_minutes, phase } = self;
        let rest = ChunkTranscription { audio_url, max_minutes, phase: Phase::Done };
        match (phase, event) {
            (Phase::Workspace, SpeechEvent::WorkspaceCreated(true)) => {
                let url = rest.audio_url.clone();
                (rest.wait(Phase::Answer), SpeechAction::Request(url))
            },
            (Phase::Workspace, _) => (rest, SpeechAction::Finish(None)),
            (Phase::Answer, SpeechEvent::Answered(true, length)) => {
                let too_long = match length {
                    Some(bytes) => !fits_ceiling(bytes),
                    None => false,
                };
                if too_long {
                    rest.leave(None)
                } else {
                    (
                        rest.wait(Phase::Storage),
                        SpeechAction::Store(chunks::episode_file_name(ext)),
                    )
                }
            },
            (Phase::Storage, SpeechEvent::Stored(Some(bytes))) => if fits_ceiling(bytes) {
                (rest.wait(Phase::Split), SpeechAction::Split(chunks::split_args(ext)))
            } else {
                rest.leave(None)
            },
            (Phase::Split, SpeechEvent::SplitDone(true)) => (
                rest.wait(Phase::Files),
                SpeechAction::ListFiles,
            ),
            (Phase::Files, SpeechEvent::FilesListed(names)) => {
                let limit: usize = chunks::max_chunks(max_minutes);
                let mut chunks = chunks::collect_chunks(names, ext);
                let ghost all = chunks.deep_view();
                chunks.truncate(limit);
                assert(chunks.deep_view() =~= first_chunks(all, limit as nat));
                rest.go_on(Progress { chunks, index: 0, transcript: String::new() })
            },
            (Phase::Trim(progress), SpeechEvent::Trimmed(success)) => if success {
                (
                    rest.wait(Phase::Chunk(progress)),
                    SpeechAction::ReadChunk(chunks::trimmed_file_name(ext)),
                )
            } else {
                rest.pass_over(progress)
            },
            (Phase::Chunk(progress), SpeechEvent::ChunkRead(read)) => {
                let sendable = match read {
                    Some(bytes) => fits_chunk_bound(bytes),
                    None => false,
                };
                if sendable {
                    let name = chunks::chunk_file_name(progress.index as u64, ext);
                    let mime = audio::audio_mime(ext).to_owned();
                    (rest.wait(Phase::Part(progress)), SpeechAction::Upload(name, mime))
                } else {
                    rest.pass_over(progress)
                }
            },
            (Phase::Part(progress), SpeechEvent::Transcribed(part)) => {
                let Progress { chunks, index, mut transcript } = progress;
                let ghost so_far = transcript@;
                if let Some(more) = &part {
                    if !transcript.as_str().is_empty() {
                        transcript.append(" ");
                    }
                    transcript.append(more.as_str());
                    assert(transcript@ =~= with_part(so_far, part.deep_view()));
                }
                rest.go_on(Progress { chunks, index: index + 1, transcript })
            },
            (Phase::Removal(outcome), _) => (rest, SpeechAction::Finish(outcome)),
            (Phase::Done, _) => (rest, SpeechAction::Finish(None)),
            _ => rest.leave(None),
        }
    }
}

// ---------------------------------------------------------------------------
// Laws
// ---------------------------------------------------------------------------

/// Without an API key nothing is done, and there is no transcript.
pub proof fn lemma_no_key_no_work(audio_url: Seq<char>, max_minutes: nat)
    ensures
        speech_start(Seq::empty(), audio_url, max_minutes).1 == SpeechActionView::Finish(None),
{
}

/// Once a workspace is there, the transcription ends by its removal and in no
/// other way: only the phase that waits for the removal leads to the end, and
/// only the action that removes the workspace leads to that phase.
pub proof fn lemma_workspace_is_removed(state: TranscriptionView, event: SpeechEventView)
    ensures
        ({
            let (next, action) = speech_step(state, event);
            let has_workspace = state.phase != PhaseView::Workspace && state.phase
                != PhaseView::Done;
            &&& has_workspace && action is Finish ==> state.phase is Removal
            &&& state.phase == PhaseView::Workspace && event
                == SpeechEventView::WorkspaceCreated(true) ==> !(action is Finish)
            &&& next.phase is Removal <==> action == SpeechActionView::RemoveWorkspace
        }),
{
}

/// Audio above the ceiling is neither stored, where its length is stated, nor
/// split.
pub proof fn lemma_ceiling_is_kept(state: TranscriptionView, event: SpeechEventView)
    ensures
        speech_step(state, event).1 is Store ==> (event matches SpeechEventView::Answered(
            true,
            length,
        ) && (length matches Some(bytes) ==> within_ceiling(bytes))),
        speech_step(state, event).1 is Split ==> (event matches SpeechEventView::Stored(
            Some(bytes),
        ) && within_ceiling(bytes)),
{
}

/// Every event keeps a state well-formed and the limit as it is, and no segment
/// is sent off that the limit has no room for.
pub proof fn lemma_limit_is_kept(state: TranscriptionView, event: SpeechEventView)
    requires
        speech_wf(state),
    ensures
        speech_wf(speech_step(state, event).0),
        speech_step(state, event).0.max_minutes == state.max_minutes,
        speech_step(state, event).1 is Upload ==> (state.phase matches PhaseView::Chunk(progress)
            && chunks::room_for(progress.index, state.max_minutes) > 0),
{
    if let PhaseView::Chunk(progress) = state.phase {
        chunks::lemma_room_within_limit(progress.index, state.max_minutes);
    }
}

/// What is read in the place of a segment: a segment that the limit has room for
/// in full is read as it is. Of any other one, what is read was trimmed to the
/// minutes that the limit has room for.
pub proof fn lemma_segment_is_trimmed(state: TranscriptionView, event: SpeechEventView)
    ensures
        ({
            let (next, action) = speech_step(state, event);
            let ext = audio::ext_of(state.audio_url);
            &&& next.phase matches PhaseView::Chunk(progress) ==> (action
                == SpeechActionView::ReadChunk(progress.chunks[progress.index as int])
                && chunks::room_for(progress.index, state.max_minutes) >= chunks::SEGMENT_MINUTES)
                || (action == SpeechActionView::ReadChunk(chunks::trimmed_name(ext)) && state.phase
                == PhaseView::Trim(progress) && event == SpeechEventView::Trimmed(true))
            &&& next.phase matches PhaseView::Trim(progress) ==> action == SpeechActionView::Trim(
                chunks::trim_args_of(
                    progress.chunks[progress.index as int],
                    chunks::room_for(progress.index, state.max_minutes),
                    ext,
                ),
            )
        }),
{
}

/// No segment is sent off that was not read, or that is not below the bound.
pub proof fn lemma_chunk_bound_is_kept(state: TranscriptionView, event: SpeechEventView)
    ensures
        speech_step(state, event).1 is Upload ==> (event matches SpeechEventView::ChunkRead(
            Some(bytes),
        ) && within_chunk_bound(bytes)),
{
}

/// Every event keeps the outcome from being blank, and a transcript that is
/// handed on is not.
pub proof fn lemma_outcome_is_not_blank(state: TranscriptionView, event: SpeechEventView)
    requires
        speech_wf(state),
    ensures
        speech_step(state, event).0.phase matches PhaseView::Removal(Some(transcript))
            ==> !text::is_blank(transcript),
        speech_step(state, event).1 matches SpeechActionView::Finish(Some(transcript))
            ==> !text::is_blank(transcript),
{
}

/// How many minutes of audio are sent off in a run of events: of each segment as
/// much as the limit has room for.
pub open spec fn minutes_sent(state: TranscriptionView, events: Seq<SpeechEventView>) -> nat
    decreases events.len(),
{
    if events.len() == 0 {
        0
    } else {
        let (next, action) = speech_step(state, events[0]);
        let now = match (state.phase, action) {
            (PhaseView::Chunk(progress), SpeechActionView::Upload(_, _)) => chunks::room_for(
                progress.index,
                state.max_minutes,
            ),
            _ => 0,
        };
        now + minutes_sent(next, events.drop_first())
    }
}

/// How many minutes the limit still has room for, from a segment on.
pub open spec fn minutes_from(index: nat, max_minutes: nat) -> nat {
    if index * chunks::SEGMENT_MINUTES <= max_minutes {
        (max_minutes - index * chunks::SEGMENT_MINUTES) as nat
    } else {
        0
    }
}

/// How many minutes can still be sent off.
pub open spec fn minutes_left(state: TranscriptionView) -> nat {
    match state.phase {
        PhaseView::Trim(progress) => minutes_from(progress.index, state.max_minutes),
        PhaseView::Chunk(progress) => minutes_from(progress.index, state.max_minutes),
        PhaseView::Part(progress) => minutes_from(progress.index + 1, state.max_minutes),
        PhaseView::Removal(_) => 0,
        PhaseView::Done => 0,
        _ => state.max_minutes,
    }
}

proof fn lemma_minutes_bounded(state: TranscriptionView, events: Seq<SpeechEventView>)
    ensures
        minutes_sent(state, events) <= minutes_left(state),
    decreases events.len(),
{
    if events.len() > 0 {
        lemma_minutes_bounded(speech_step(state, events[0]).0, events.drop_first());
    }
}

/// Whatever the events are, and however many segments there are, no more minutes
/// of audio are sent off than `max_minutes`.
pub proof fn lemma_max_minutes_is_kept(
    api_key: Seq<char>,
    audio_url: Seq<char>,
    max_minutes: nat,
    events: Seq<SpeechEventView>,
)
    ensures
        minutes_sent(speech_start(api_key, audio_url, max_minutes).0, events) <= max_minutes,
{
    lemma_minutes_bounded(speech_start(api_key, audio_url, max_minutes).0, events);
}

/// How many events a state takes at most until the transcription has ended.
pub open spec fn events_left(state: TranscriptionView) -> nat {
    let limit = chunks::chunk_limit(state.max_minutes);
    match state.phase {
        PhaseView::Workspace => 3 * limit + 7,
        PhaseView::Answer => 3 * limit + 6,
        PhaseView::Storage => 3 * limit + 5,
        PhaseView::Split => 3 * limit + 4,
        PhaseView::Files => 3 * limit + 3,
        PhaseView::Trim(progress) => (3 * (progress.chunks.len() - progress.index) + 2) as nat,
        PhaseView::Chunk(progress) => (3 * (progress.chunks.len() - progress.index) + 1) as nat,
        PhaseView::Part(progress) => (3 * (progress.chunks.len() - progress.index)) as nat,
        PhaseView::Removal(_) => 1,
        PhaseView::Done => 0,
    }
}

/// Whatever the events are, a transcription comes to an end: each event brings
/// it closer, and at the end the action is to finish.
pub proof fn lemma_transcription_ends(state: TranscriptionView, event: SpeechEventView)
    requires
        speech_wf(state),
    ensures
        events_left(state) > 0 ==> events_left(speech_step(state, event).0) < events_left(state),
        events_left(speech_step(state, event).0) == 0 ==> speech_step(state, event).1 is Finish,
{
}

/// What came of one segment.
pub enum SegmentOutcome {
    /// It had to be trimmed, and could not be.
    Untrimmed,
    /// It could not be read, or was read and is too large.
    PassedOver(Option<u64>),
    /// It was read and sent off, and this is its transcript.
    Sent(u64, Option<Seq<char>>),
}

/// Whether this can come of a segment, be it one that has to be trimmed or not.
pub open spec fn outcome_holds(outcome: SegmentOutcome, to_trim: bool) -> bool {
    match outcome {
        SegmentOutcome::Untrimmed => to_trim,
        SegmentOutcome::PassedOver(read) => read matches Some(bytes) ==> !within_chunk_bound(bytes),
        SegmentOutcome::Sent(bytes, _) => within_chunk_bound(bytes),
    }
}

/// Whether the segment with this index has to be trimmed.
pub open spec fn has_to_be_trimmed(index: nat, max_minutes: nat) -> bool {
    chunks::room_for(index, max_minutes) < chunks::SEGMENT_MINUTES
}

/// The events of one segment.
pub open spec fn segment_events(outcome: SegmentOutcome, to_trim: bool) -> Seq<SpeechEventView> {
    let before = if to_trim {
        seq![SpeechEventView::Trimmed(!(outcome is Untrimmed))]
    } else {
        Seq::empty()
    };
    before + match outcome {
        SegmentOutcome::Untrimmed => Seq::empty(),
        SegmentOutcome::PassedOver(read) => seq![SpeechEventView::ChunkRead(read)],
        SegmentOutcome::Sent(bytes, part) => seq![
            SpeechEventView::ChunkRead(Some(bytes)),
            SpeechEventView::Transcribed(part),
        ],
    }
}

/// A transcript with that of one segment after it.
pub open spec fn with_segment(transcript: Seq<char>, outcome: SegmentOutcome) -> Seq<char> {
    match outcome {
        SegmentOutcome::Sent(_, part) => with_part(transcript, part),
        _ => transcript,
    }
}

/// The events of a run of segments, the first of which has this index.
pub open spec fn all_segment_events(
    outcomes: Seq<SegmentOutcome>,
    index: nat,
    max_minutes: nat,
) -> Seq<SpeechEventView>
    decreases outcomes.len(),
{
    if outcomes.len() == 0 {
        Seq::empty()
    } else {
        segment_events(outcomes[0], has_to_be_trimmed(index, max_minutes)) + all_segment_events(
            outcomes.drop_first(),
            index + 1,
            max_minutes,
        )
    }
}

/// Whether these can come of a run of segments, the first of which has this index.
pub open spec fn outcomes_hold(
    outcomes: Seq<SegmentOutcome>,
    index: nat,
    max_minutes: nat,
) -> bool {
    forall|i: int|
        0 <= i < outcomes.len() ==> outcome_holds(
            #[trigger] outcomes[i],
            has_to_be_trimmed((index + i) as nat, max_minutes),
        )
}

/// A transcript with those of a run of segments after it.
pub open spec fn with_segments(
    transcript: Seq<char>,
    outcomes: Seq<SegmentOutcome>,
) -> Seq<char>
    decreases outcomes.len(),
{
    if outcomes.len() == 0 {
        transcript
    } else {
        with_segments(with_segment(transcript, outcomes[0]), outcomes.drop_first())
    }
}

/// The state and the last action after a run of events.
pub open spec fn speech_run(
    now: (TranscriptionView, SpeechActionView),
    events: Seq<SpeechEventView>,
) -> (TranscriptionView, SpeechActionView)
    decreases events.len(),
{
    if events.len() == 0 {
        now
    } else {
        speech_run(speech_step(now.0, events[0]), events.drop_first())
    }
}

proof fn lemma_speech_run_concat(
    now: (TranscriptionView, SpeechActionView),
    a: Seq<SpeechEventView>,
    b: Seq<SpeechEventView>,
)
    ensures
        speech_run(now, a + b) == speech_run(speech_run(now, a), b),
    decreases a.len(),
{
    if a.len() == 0 {
        assert(a + b =~= b);
    } else {
        assert((a + b).drop_first() =~= a.drop_first() + b);
        lemma_speech_run_concat(speech_step(now.0, a[0]), a.drop_first(), b);
    }
}

proof fn lemma_two_events(
    now: (TranscriptionView, SpeechActionView),
    a: SpeechEventView,
    b: SpeechEventView,
)
    ensures
        speech_run(now, seq![a]) == speech_step(now.0, a),
        speech_run(now, seq![a, b]) == speech_step(speech_step(now.0, a).0, b),
{
    let next = speech_step(now.0, a);
    assert(seq![a].drop_first() =~= Seq::<SpeechEventView>::empty());
    assert(seq![b].drop_first() =~= Seq::<SpeechEventView>::empty());
    assert(seq![a, b].drop_first() =~= seq![b]);
    assert(speech_run(next, Seq::empty()) == next);
    let last = speech_step(next.0, b);
    assert(speech_run(last, Seq::empty()) == last);
    assert(speech_run(next, seq![b]) == last);
}

proof fn lemma_one_segment(
    state: TranscriptionView,
    progress: ProgressView,
    outcome: SegmentOutcome,
)
    requires
        progress.index < progress.chunks.len(),
        outcome_holds(outcome, has_to_be_trimmed(progress.index, state.max_minutes)),
    ensures
        speech_run(
            go_on(state, progress),
            segment_events(outcome, has_to_be_trimmed(progress.index, state.max_minutes)),
        ) == go_on(
            state,
            ProgressView {
                chunks: progress.chunks,
                index: progress.index + 1,
                transcript: with_segment(progress.transcript, outcome),
            },
        ),
{
    let to_trim = has_to_be_trimmed(progress.index, state.max_minutes);
    let now = go_on(state, progress);
    let events = segment_events(outcome, to_trim);
    let rest = segment_events(outcome, false);
    let done = SpeechEventView::Trimmed(!(outcome is Untrimmed));
    // Where the segment is trimmed, that comes first.
    let read = if to_trim {
        lemma_two_events(now, done, done);
        lemma_speech_run_concat(now, seq![done], rest);
        assert(events =~= seq![done] + rest);
        speech_step(now.0, done)
    } else {
        assert(events =~= rest);
        now
    };
    match outcome {
        SegmentOutcome::Untrimmed => {
            assert(rest =~= Seq::<SpeechEventView>::empty());
            assert(speech_run(read, rest) == read);
        },
        SegmentOutcome::PassedOver(bytes) => {
            let first = SpeechEventView::ChunkRead(bytes);
            assert(rest =~= seq![first]);
            lemma_two_events(read, first, first);
        },
        SegmentOutcome::Sent(bytes, part) => {
            let first = SpeechEventView::ChunkRead(Some(bytes));
            let second = SpeechEventView::Transcribed(part);
            assert(rest =~= seq![first, second]);
            lemma_two_events(read, first, second);
        },
    }
}

proof fn lemma_segments_in_turn(
    state: TranscriptionView,
    progress: ProgressView,
    outcomes: Seq<SegmentOutcome>,
)
    requires
        progress.index + outcomes.len() == progress.chunks.len(),
        outcomes_hold(outcomes, progress.index, state.max_minutes),
    ensures
        speech_run(
            go_on(state, progress),
            all_segment_events(outcomes, progress.index, state.max_minutes),
        ) == leave(state, worth(with_segments(progress.transcript, outcomes))),
    decreases outcomes.len(),
{
    if outcomes.len() > 0 {
        let rest = outcomes.drop_first();
        let next = ProgressView {
            chunks: progress.chunks,
            index: progress.index + 1,
            transcript: with_segment(progress.transcript, outcomes[0]),
        };
        assert(outcome_holds(
            outcomes[0],
            has_to_be_trimmed((progress.index + 0) as nat, state.max_minutes),
        ));
        assert forall|i: int| 0 <= i < rest.len() implies outcome_holds(
            #[trigger] rest[i],
            has_to_be_trimmed((next.index + i) as nat, state.max_minutes),
        ) by {
            assert(rest[i] == outcomes[i + 1]);
        }
        lemma_one_segment(state, progress, outcomes[0]);
        lemma_speech_run_concat(
            go_on(state, progress),
            segment_events(outcomes[0], has_to_be_trimmed(progress.index, state.max_minutes)),
            all_segment_events(rest, next.index, state.max_minutes),
        );
        lemma_segments_in_turn(state, next, rest);
    }
}

/// A run in which nothing fails, up to the listing of the files.
pub open spec fn preparation(
    length: Option<u64>,
    bytes: u64,
    names: Seq<Seq<char>>,
) -> Seq<SpeechEventView> {
    seq![
        SpeechEventView::WorkspaceCreated(true),
        SpeechEventView::Answered(true, length),
        SpeechEventView::Stored(Some(bytes)),
        SpeechEventView::SplitDone(true),
        SpeechEventView::FilesListed(names),
    ]
}

proof fn lemma_preparation(
    start: (TranscriptionView, SpeechActionView),
    length: Option<u64>,
    bytes: u64,
    names: Seq<Seq<char>>,
)
    requires
        start.0.phase == PhaseView::Workspace,
        length matches Some(stated) ==> within_ceiling(stated),
        within_ceiling(bytes),
    ensures
        speech_run(start, preparation(length, bytes, names)) == go_on(
            waiting(start.0, PhaseView::Files),
            ProgressView {
                chunks: first_chunks(
                    chunks::ordered_chunks(names, audio::ext_of(start.0.audio_url)),
                    chunks::chunk_limit(start.0.max_minutes),
                ),
                index: 0,
                transcript: Seq::empty(),
            },
        ),
{
    let p0 = preparation(length, bytes, names);
    let p1 = p0.drop_first();
    let p2 = p1.drop_first();
    let p3 = p2.drop_first();
    let p4 = p3.drop_first();
    let s1 = speech_step(start.0, p0[0]);
    let s2 = speech_step(s1.0, p1[0]);
    let s3 = speech_step(s2.0, p2[0]);
    let s4 = speech_step(s3.0, p3[0]);
    let s5 = speech_step(s4.0, p4[0]);
    assert(s1.0 == waiting(start.0, PhaseView::Answer));
    assert(s2.0 == waiting(start.0, PhaseView::Storage));
    assert(s3.0 == waiting(start.0, PhaseView::Split));
    assert(s4.0 == waiting(start.0, PhaseView::Files));
    assert(p4.drop_first().len() == 0);
    assert(speech_run(s5, p4.drop_first()) == s5);
    assert(speech_run(s4, p4) == s5);
    assert(speech_run(s3, p3) == s5);
    assert(speech_run(s2, p2) == s5);
    assert(speech_run(s1, p1) == s5);
    assert(speech_run(start, p0) == s5);
}

proof fn lemma_last_event(now: (TranscriptionView, SpeechActionView))
    requires
        now.0.phase is Removal,
    ensures
        speech_run(now, seq![SpeechEventView::WorkspaceRemoved]).1 == SpeechActionView::Finish(
            now.0.phase->Removal_0,
        ),
{
    let last = seq![SpeechEventView::WorkspaceRemoved];
    assert(last.drop_first().len() == 0);
    let end = speech_step(now.0, last[0]);
    assert(speech_run(end, last.drop_first()) == end);
}

/// Where an episode is split into `n` segments, the first of them, up to the
/// limit, are transcribed in numeric order, and the transcript is what they
/// yield in that order, set off by spaces. It is `None` where that is blank.
pub proof fn lemma_transcript_of_segments(
    api_key: Seq<char>,
    audio_url: Seq<char>,
    max_minutes: nat,
    length: Option<u64>,
    bytes: u64,
    names: Seq<Seq<char>>,
    n: nat,
    outcomes: Seq<SegmentOutcome>,
)
    requires
        api_key.len() > 0,
        length matches Some(stated) ==> within_ceiling(stated),
        within_ceiling(bytes),
        n <= u64::MAX,
        names.to_multiset() == chunks::segment_names(n, audio::ext_of(audio_url)).push(
            chunks::episode_name(audio::ext_of(audio_url)),
        ).to_multiset(),
        outcomes.len() == if n <= chunks::chunk_limit(max_minutes) {
            n
        } else {
            chunks::chunk_limit(max_minutes)
        },
        outcomes_hold(outcomes, 0, max_minutes),
    ensures
        speech_run(
            speech_start(api_key, audio_url, max_minutes),
            preparation(length, bytes, names) + all_segment_events(
                outcomes,
                0,
                max_minutes,
            )
                + seq![SpeechEventView::WorkspaceRemoved],
        ).1 == SpeechActionView::Finish(worth(with_segments(Seq::empty(), outcomes))),
{
    let start = speech_start(api_key, audio_url, max_minutes);
    let prepared = preparation(length, bytes, names);
    let middle = all_segment_events(outcomes, 0, max_minutes);
    let last = seq![SpeechEventView::WorkspaceRemoved];
    let ext = audio::ext_of(audio_url);
    chunks::lemma_all_segments_in_numeric_order(names, n, ext);
    let progress = ProgressView {
        chunks: first_chunks(chunks::ordered_chunks(names, ext), chunks::chunk_limit(max_minutes)),
        index: 0,
        transcript: Seq::empty(),
    };
    lemma_speech_run_concat(start, prepared + middle, last);
    lemma_speech_run_concat(start, prepared, middle);
    lemma_preparation(start, length, bytes, names);
    lemma_segments_in_turn(waiting(start.0, PhaseView::Files), progress, outcomes);
    lemma_last_event(
        leave(
            waiting(start.0, PhaseView::Files),
            worth(with_segments(Seq::empty(), outcomes)),
        ),
    );
}

/// One more part comes after what is there: the transcript so far is what the new
/// one begins with, the part is what it ends with, and a single space is all that
/// stands between, where there is a transcript so far. Without a part nothing
/// changes.
pub proof fn lemma_part_is_added(transcript: Seq<char>, part: Seq<char>)
    ensures
        ({
            let longer = with_part(transcript, Some(part));
            let gap: int = if transcript.len() > 0 {
                1
            } else {
                0
            };
            &&& longer.len() == transcript.len() + gap + part.len()
            &&& longer.take(transcript.len() as int) == transcript
            &&& longer.skip(transcript.len() + gap) == part
            &&& gap == 1 ==> longer[transcript.len() as int] == ' '
        }),
        with_part(transcript, None) == transcript,
{
    reveal_strlit(" ");
    let longer = with_part(transcript, Some(part));
    assert(longer.take(transcript.len() as int) =~= transcript);
    if transcript.len() > 0 {
        assert(longer.skip(transcript.len() as int + 1) =~= part);
    } else {
        assert(longer.skip(0) =~= part);
    }
}

/// Texts with a space between each two of them.
pub open spec fn spaced(parts: Seq<Seq<char>>) -> Seq<char>
    decreases parts.len(),
{
    if parts.len() == 0 {
        Seq::empty()
    } else if parts.len() == 1 {
        parts[0]
    } else {
        parts[0] + seq![' '] + spaced(parts.drop_first())
    }
}

/// The transcripts that segments yielded, in order.
pub open spec fn parts_of(outcomes: Seq<SegmentOutcome>) -> Seq<Seq<char>>
    decreases outcomes.len(),
{
    if outcomes.len() == 0 {
        Seq::empty()
    } else {
        match outcomes[0] {
            SegmentOutcome::Sent(_, Some(part)) => seq![part] + parts_of(outcomes.drop_first()),
            _ => parts_of(outcomes.drop_first()),
        }
    }
}

/// Texts from the first one on that is not empty.
pub open spec fn from_first_text(parts: Seq<Seq<char>>) -> Seq<Seq<char>>
    decreases parts.len(),
{
    if parts.len() > 0 && parts[0].len() == 0 {
        from_first_text(parts.drop_first())
    } else {
        parts
    }
}

proof fn lemma_spaced_after(transcript: Seq<char>, outcomes: Seq<SegmentOutcome>)
    requires
        transcript.len() > 0,
    ensures
        with_segments(transcript, outcomes) == spaced(seq![transcript] + parts_of(outcomes)),
    decreases outcomes.len(),
{
    let rest = outcomes.drop_first();
    if outcomes.len() == 0 {
        assert(seq![transcript] + parts_of(outcomes) =~= seq![transcript]);
    } else {
        let more = parts_of(rest);
        match outcomes[0] {
            SegmentOutcome::Sent(_, Some(part)) => {
                lemma_part_is_added(transcript, part);
                let longer = with_part(transcript, Some(part));
                assert(longer =~= transcript + seq![' '] + part);
                lemma_spaced_after(longer, rest);
                let all = seq![transcript] + (seq![part] + more);
                assert(all.drop_first() =~= seq![part] + more);
                assert(spaced(all) == transcript + seq![' '] + spaced(seq![part] + more));
                assert((seq![part] + more).drop_first() =~= more);
                assert((seq![longer] + more).drop_first() =~= more);
                if more.len() == 0 {
                    assert(seq![part] + more =~= seq![part]);
                    assert(seq![longer] + more =~= seq![longer]);
                } else {
                    assert(spaced(seq![part] + more) == part + seq![' '] + spaced(more));
                    assert(spaced(seq![longer] + more) == longer + seq![' '] + spaced(more));
                    assert(transcript + seq![' '] + (part + seq![' '] + spaced(more)) =~= longer
                        + seq![' '] + spaced(more));
                }
            },
            _ => {
                lemma_spaced_after(transcript, rest);
            },
        }
    }
}

/// What segments yield is joined in order with single spaces, whatever the texts
/// are; texts that are empty count only after one that is not.
pub proof fn lemma_segments_are_joined(outcomes: Seq<SegmentOutcome>)
    ensures
        with_segments(Seq::empty(), outcomes) == spaced(from_first_text(parts_of(outcomes))),
    decreases outcomes.len(),
{
    let none = Seq::<char>::empty();
    if outcomes.len() > 0 {
        let rest = outcomes.drop_first();
        match outcomes[0] {
            SegmentOutcome::Sent(_, Some(part)) => {
                lemma_part_is_added(none, part);
                assert(with_part(none, Some(part)) =~= part);
                let all = seq![part] + parts_of(rest);
                assert(all.drop_first() =~= parts_of(rest));
                if part.len() == 0 {
                    assert(part =~= none);
                    lemma_segments_are_joined(rest);
                } else {
                    lemma_spaced_after(part, rest);
                }
            },
            _ => {
                lemma_segments_are_joined(rest);
            },
        }
    }
}

/// An episode whose audio is stored and split leads to the join of what its
/// segments yield, in numeric order and with single spaces; and to nothing where
/// that has no character but white space.
pub proof fn lemma_transcript_is_joined(
    api_key: Seq<char>,
    audio_url: Seq<char>,
    max_minutes: nat,
    length: Option<u64>,
    bytes: u64,
    names: Seq<Seq<char>>,
    n: nat,
    outcomes: Seq<SegmentOutcome>,
)
    requires
        api_key.len() > 0,
        length matches Some(stated) ==> stated <= 524_288_000,
        bytes <= 524_288_000,
        n <= u64::MAX,
        names.to_multiset() == chunks::segment_names(n, audio::ext_of(audio_url)).push(
            chunks::episode_name(audio::ext_of(audio_url)),
        ).to_multiset(),
        outcomes.len() == if n <= chunks::chunk_limit(max_minutes) {
            n
        } else {
            chunks::chunk_limit(max_minutes)
        },
        outcomes_hold(outcomes, 0, max_minutes),
    ensures
        ({
            let joined = spaced(from_first_text(parts_of(outcomes)));
            let end = speech_run(
                speech_start(api_key, audio_url, max_minutes),
                preparation(length, bytes, names) + all_segment_events(outcomes, 0, max_minutes)
                    + seq![SpeechEventView::WorkspaceRemoved],
            ).1;
            &&& text::is_white(joined) ==> end == SpeechActionView::Finish(None)
            &&& !text::is_white(joined) ==> end == SpeechActionView::Finish(Some(joined))
        }),
{
    lemma_transcript_of_segments(
        api_key,
        audio_url,
        max_minutes,
        length,
        bytes,
        names,
        n,
        outcomes,
    );
    lemma_segments_are_joined(outcomes);
    text::lemma_trimmed_parts(spaced(from_first_text(parts_of(outcomes))));
}

/// Whether this is what follows once the segments before `index` are dealt with:
/// the next segment is read, or trimmed first to the minutes that are left where
/// they are fewer than ten. After the last the workspace is removed, and the
/// transcript is the outcome unless it is white space through and through.
pub open spec fn moves_on(
    state: TranscriptionView,
    chunks: Seq<Seq<char>>,
    index: nat,
    transcript: Seq<char>,
    next: TranscriptionView,
    action: SpeechActionView,
) -> bool {
    let progress = ProgressView { chunks, index, transcript };
    if index >= chunks.len() {
        &&& action == SpeechActionView::RemoveWorkspace
        &&& next.phase == PhaseView::Removal(
            if text::is_white(transcript) {
                None
            } else {
                Some(transcript)
            },
        )
    } else if (index + 1) * 10 <= state.max_minutes {
        &&& action == SpeechActionView::ReadChunk(chunks[index as int])
        &&& next.phase == PhaseView::Chunk(progress)
    } else {
        &&& next.phase == PhaseView::Trim(progress)
        &&& action == SpeechActionView::Trim(
            chunks::trim_args_of(
                chunks[index as int],
                if index * 10 <= state.max_minutes {
                    (state.max_minutes - index * 10) as nat
                } else {
                    0
                },
                audio::ext_of(state.audio_url),
            ),
        )
    }
}

proof fn lemma_go_on_moves_on(state: TranscriptionView, progress: ProgressView)
    ensures
        moves_on(
            state,
            progress.chunks,
            progress.index,
            progress.transcript,
            go_on(state, progress).0,
            go_on(state, progress).1,
        ),
{
    text::lemma_trimmed_parts(progress.transcript);
}

/// What is done with one segment, whatever it is and whatever was said before it.
/// Once it is trimmed, the trimmed file is read. Once it is read, it is sent off
/// under its number and the media type of the audio, where it is below 25 MB. Its
/// transcript comes after what was said before. A segment that cannot be trimmed
/// or read, or is too large, or has no transcript, leaves that as it is.
pub proof fn lemma_segment_steps(
    state: TranscriptionView,
    progress: ProgressView,
    event: SpeechEventView,
)
    ensures
        ({
            let (next, action) = speech_step(state, event);
            let ext = audio::ext_of(state.audio_url);
            let passed = moves_on(
                state,
                progress.chunks,
                progress.index + 1,
                progress.transcript,
                next,
                action,
            );
            &&& state.phase == PhaseView::Trim(progress) ==> {
                &&& event == SpeechEventView::Trimmed(false) ==> passed
                &&& event == SpeechEventView::Trimmed(true) ==> action
                    == SpeechActionView::ReadChunk("trimmed."@ + ext) && next.phase
                    == PhaseView::Chunk(progress)
            }
            &&& state.phase == PhaseView::Chunk(progress) ==> match event {
                SpeechEventView::ChunkRead(Some(bytes)) => if bytes < 25_000_000 {
                    &&& next.phase == PhaseView::Part(progress)
                    &&& action == SpeechActionView::Upload(
                        "chunk_"@ + text::decimal3(progress.index) + "."@ + ext,
                        audio::mime_of(ext),
                    )
                } else {
                    passed
                },
                SpeechEventView::ChunkRead(None) => passed,
                _ => true,
            }
            &&& state.phase == PhaseView::Part(progress) ==> match event {
                SpeechEventView::Transcribed(None) => passed,
                SpeechEventView::Transcribed(Some(part)) => moves_on(
                    state,
                    progress.chunks,
                    progress.index + 1,
                    if progress.transcript.len() == 0 {
                        part
                    } else {
                        progress.transcript + seq![' '] + part
                    },
                    next,
                    action,
                ),
                _ => true,
            }
        }),
{
    reveal_strlit(" ");
    assert(" "@ =~= seq![' ']);
    let passed = ProgressView { index: progress.index + 1, ..progress };
    lemma_go_on_moves_on(state, passed);
    if let SpeechEventView::Transcribed(part) = event {
        lemma_go_on_moves_on(
            state,
            ProgressView {
                chunks: progress.chunks,
                index: progress.index + 1,
                transcript: with_part(progress.transcript, part),
            },
        );
    }
}

/// What is done up to the segments: the workspace, the request for the audio, its
/// storage, the split and the listing follow one another, whatever the audio is.
pub proof fn lemma_preparation_steps(
    state: TranscriptionView,
    length: Option<u64>,
    bytes: u64,
    names: Seq<Seq<char>>,
)
    ensures
        ({
            let done = speech_step(state, SpeechEventView::WorkspaceCreated(true));
            state.phase == PhaseView::Workspace ==> done.1 == SpeechActionView::Request(
                state.audio_url,
            ) && done.0.phase == PhaseView::Answer
        }),
        ({
            let ext = audio::ext_of(state.audio_url);
            let done = speech_step(state, SpeechEventView::Answered(true, length));
            state.phase == PhaseView::Answer ==> if length matches Some(stated) && stated
                > 524_288_000 {
                done.1 == SpeechActionView::RemoveWorkspace && done.0.phase == PhaseView::Removal(
                    None,
                )
            } else {
                done.1 == SpeechActionView::Store("episode."@ + ext) && done.0.phase
                    == PhaseView::Storage
            }
        }),
        ({
            let ext = audio::ext_of(state.audio_url);
            let done = speech_step(state, SpeechEventView::Stored(Some(bytes)));
            state.phase == PhaseView::Storage ==> if bytes > 524_288_000 {
                done.1 == SpeechActionView::RemoveWorkspace && done.0.phase == PhaseView::Removal(
                    None,
                )
            } else {
                done.1 == SpeechActionView::Split(chunks::split_args_of(ext)) && done.0.phase
                    == PhaseView::Split
            }
        }),
        ({
            let done = speech_step(state, SpeechEventView::SplitDone(true));
            state.phase == PhaseView::Split ==> done.1 == SpeechActionView::ListFiles
                && done.0.phase == PhaseView::Files
        }),
        ({
            let ext = audio::ext_of(state.audio_url);
            let all = chunks::ordered_chunks(names, ext);
            let limit = chunks::chunk_limit(state.max_minutes) as int;
            let (next, action) = speech_step(state, SpeechEventView::FilesListed(names));
            state.phase == PhaseView::Files ==> moves_on(
                state,
                if all.len() <= limit {
                    all
                } else {
                    all.take(limit)
                },
                0,
                Seq::empty(),
                next,
                action,
            )
        }),
{
    let ext = audio::ext_of(state.audio_url);
    let all = chunks::ordered_chunks(names, ext);
    lemma_go_on_moves_on(
        state,
        ProgressView {
            chunks: first_chunks(all, chunks::chunk_limit(state.max_minutes)),
            index: 0,
            transcript: Seq::empty(),
        },
    );
}

/// Every failure before the segments gives the episode up. The outcome of a
/// removed workspace is the one that was reached. The audio and the limit stay the
/// same all along, and a key is all that is needed to begin.
pub proof fn lemma_ends_and_failures(
    state: TranscriptionView,
    event: SpeechEventView,
    api_key: Seq<char>,
)
    ensures
        ({
            let (next, action) = speech_step(state, event);
            let failed = match (state.phase, event) {
                (PhaseView::Answer, SpeechEventView::Answered(success, _)) => !success,
                (PhaseView::Storage, SpeechEventView::Stored(bytes)) => bytes is None,
                (PhaseView::Split, SpeechEventView::SplitDone(success)) => !success,
                _ => false,
            };
            &&& failed ==> action == SpeechActionView::RemoveWorkspace && next.phase
                == PhaseView::Removal(None)
            &&& state.phase matches PhaseView::Removal(outcome) ==> action
                == SpeechActionView::Finish(outcome) && next.phase == PhaseView::Done
            &&& state.phase == PhaseView::Workspace && event == SpeechEventView::WorkspaceCreated(
                false,
            ) ==> action == SpeechActionView::Finish(None) && next.phase == PhaseView::Done
            &&& next.audio_url == state.audio_url
            &&& next.max_minutes == state.max_minutes
        }),
        ({
            let (begun, action) = speech_start(api_key, state.audio_url, state.max_minutes);
            &&& begun.audio_url == state.audio_url && begun.max_minutes == state.max_minutes
            &&& api_key.len() > 0 ==> action == SpeechActionView::CreateWorkspace && begun.phase
                == PhaseView::Workspace
            &&& api_key.len() == 0 ==> action == SpeechActionView::Finish(None) && begun.phase
                == PhaseView::Done
        }),
{
}

/// An event that does not answer what was asked for gives the episode up, and what
/// has ended stays so.
pub proof fn lemma_other_events_give_up(state: TranscriptionView, event: SpeechEventView)
    ensures
        ({
            let (next, action) = speech_step(state, event);
            let answers = match state.phase {
                PhaseView::Answer => event is Answered,
                PhaseView::Storage => event is Stored,
                PhaseView::Split => event is SplitDone,
                PhaseView::Files => event is FilesListed,
                PhaseView::Trim(_) => event is Trimmed,
                PhaseView::Chunk(_) => event is ChunkRead,
                PhaseView::Part(_) => event is Transcribed,
                _ => true,
            };
            &&& !answers ==> action == SpeechActionView::RemoveWorkspace && next.phase
                == PhaseView::Removal(None)
            &&& state.phase == PhaseView::Done ==> action == SpeechActionView::Finish(None)
                && next.phase == PhaseView::Done
            &&& state.phase == PhaseView::Workspace && !(event is WorkspaceCreated) ==> action
                == SpeechActionView::Finish(None) && next.phase == PhaseView::Done
        }),
{
}

} // verus!
