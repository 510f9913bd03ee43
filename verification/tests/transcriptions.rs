use podcast::chunks::SplitArg;
use podcast::speech::{
    fits_ceiling, fits_chunk_bound, transcribe_by_chunks, ChunkTranscription, SpeechAction, SpeechEvent,
    CHUNK_BYTES_BOUND, MAX_AUDIO_BYTES,
};

fn begun() -> (ChunkTranscription, SpeechAction) {
    transcribe_by_chunks("key", "https://a/ep.M4A?t=1", 20)
}

fn after(events: Vec<SpeechEvent>) -> (ChunkTranscription, SpeechAction) {
    let mut now = begun();
    for event in events {
        now = now.0.step(event);
    }
    now
}

fn listed() -> Vec<SpeechEvent> {
    let names = ["chunk_002.m4a", "episode.m4a", "chunk_000.m4a", "chunk_001.m4a"];
    vec![
        SpeechEvent::WorkspaceCreated(true),
        SpeechEvent::Answered(true, Some(1000)),
        SpeechEvent::Stored(Some(1000)),
        SpeechEvent::SplitDone(true),
        SpeechEvent::FilesListed(names.iter().map(|n| n.to_string()).collect()),
    ]
}

fn with(mut events: Vec<SpeechEvent>, more: Vec<SpeechEvent>) -> Vec<SpeechEvent> {
    events.extend(more);
    events
}

fn part(text: &str) -> SpeechEvent {
    SpeechEvent::Transcribed(Some(text.to_string()))
}

fn gives_up(events: Vec<SpeechEvent>) {
    let (state, action) = after(events);
    assert!(matches!(action, SpeechAction::RemoveWorkspace), "{:?}", action);
    let (_, action) = state.step(SpeechEvent::WorkspaceRemoved);
    assert!(matches!(action, SpeechAction::Finish(None)), "{:?}", action);
}

#[test]
fn without_a_key_nothing_is_done() {
    let (state, action) = transcribe_by_chunks("", "https://a/ep.mp3", 90);
    assert!(matches!(action, SpeechAction::Finish(None)));
    let (_, action) = state.step(SpeechEvent::WorkspaceCreated(true));
    assert!(matches!(action, SpeechAction::Finish(None)));
}

#[test]
fn the_steps_up_to_the_segments() {
    let (state, action) = begun();
    assert!(matches!(action, SpeechAction::CreateWorkspace));
    let (state, action) = state.step(SpeechEvent::WorkspaceCreated(true));
    assert!(matches!(action, SpeechAction::Request(url) if url == "https://a/ep.M4A?t=1"));
    let (state, action) = state.step(SpeechEvent::Answered(true, None));
    assert!(matches!(action, SpeechAction::Store(name) if name == "episode.m4a"));
    let (state, action) = state.step(SpeechEvent::Stored(Some(5)));
    assert!(matches!(action, SpeechAction::Split(args) if args.len() == 14));
    let (state, action) = state.step(SpeechEvent::SplitDone(true));
    assert!(matches!(action, SpeechAction::ListFiles));
    let (_, action) = state.step(SpeechEvent::FilesListed(vec!["chunk_000.m4a".to_string()]));
    assert!(matches!(action, SpeechAction::ReadChunk(name) if name == "chunk_000.m4a"));
}

#[test]
fn segments_are_transcribed_in_order_up_to_the_limit() {
    let (state, action) = after(listed());
    assert!(matches!(action, SpeechAction::ReadChunk(name) if name == "chunk_000.m4a"));
    let (state, action) = state.step(SpeechEvent::ChunkRead(Some(9)));
    assert!(matches!(action, SpeechAction::Upload(name, mime) if name == "chunk_000.m4a" && mime == "audio/mp4"));
    let (state, action) = state.step(part("first"));
    assert!(matches!(action, SpeechAction::ReadChunk(name) if name == "chunk_001.m4a"));
    let (state, action) = state.step(SpeechEvent::ChunkRead(Some(9)));
    assert!(matches!(action, SpeechAction::Upload(name, _) if name == "chunk_001.m4a"));
    let (state, action) = state.step(part("second"));
    assert!(matches!(action, SpeechAction::RemoveWorkspace));
    let (_, action) = state.step(SpeechEvent::WorkspaceRemoved);
    assert!(matches!(action, SpeechAction::Finish(Some(text)) if text == "first second"));
}

#[test]
fn a_segment_that_yields_nothing_is_passed_over() {
    let (state, _) = after(with(
        listed(),
        vec![SpeechEvent::ChunkRead(None), SpeechEvent::ChunkRead(Some(9)), part("only")],
    ));
    let (_, action) = state.step(SpeechEvent::WorkspaceRemoved);
    assert!(matches!(action, SpeechAction::Finish(Some(text)) if text == "only"));

    let (state, _) = after(with(
        listed(),
        vec![
            SpeechEvent::ChunkRead(Some(9)),
            part("one"),
            SpeechEvent::ChunkRead(Some(9)),
            SpeechEvent::Transcribed(None),
        ],
    ));
    let (_, action) = state.step(SpeechEvent::WorkspaceRemoved);
    assert!(matches!(action, SpeechAction::Finish(Some(text)) if text == "one"));
}

#[test]
fn uploads_are_named_by_their_place() {
    let names = vec!["chunk_005.m4a".to_string()];
    let mut events = listed();
    events.pop();
    let (state, action) = after(with(events, vec![SpeechEvent::FilesListed(names)]));
    assert!(matches!(action, SpeechAction::ReadChunk(name) if name == "chunk_005.m4a"));
    let (_, action) = state.step(SpeechEvent::ChunkRead(Some(9)));
    assert!(matches!(action, SpeechAction::Upload(name, _) if name == "chunk_000.m4a"));
}

#[test]
fn a_blank_transcript_counts_for_nothing() {
    gives_up(with(
        listed(),
        vec![SpeechEvent::ChunkRead(Some(9)), part(" "), SpeechEvent::ChunkRead(Some(9)), part("\n")],
    ));
    gives_up(with(listed(), vec![SpeechEvent::ChunkRead(None), SpeechEvent::ChunkRead(None)]));
}

#[test]
fn a_transcript_is_not_trimmed() {
    let (state, _) = after(with(
        listed(),
        vec![SpeechEvent::ChunkRead(Some(9)), part(" a"), SpeechEvent::ChunkRead(Some(9)), part("")],
    ));
    let (_, action) = state.step(SpeechEvent::WorkspaceRemoved);
    assert!(matches!(action, SpeechAction::Finish(Some(text)) if text == " a "));
}

#[test]
fn without_a_workspace_there_is_nothing_to_remove() {
    let (_, action) = after(vec![SpeechEvent::WorkspaceCreated(false)]);
    assert!(matches!(action, SpeechAction::Finish(None)));
}

#[test]
fn every_failure_removes_the_workspace() {
    let created = || vec![SpeechEvent::WorkspaceCreated(true)];
    gives_up(with(created(), vec![SpeechEvent::Answered(false, None)]));
    gives_up(with(created(), vec![SpeechEvent::Answered(true, None), SpeechEvent::Stored(None)]));
    gives_up(with(
        created(),
        vec![SpeechEvent::Answered(true, None), SpeechEvent::Stored(Some(1)), SpeechEvent::SplitDone(false)],
    ));
    gives_up(with(
        created(),
        vec![
            SpeechEvent::Answered(true, None),
            SpeechEvent::Stored(Some(1)),
            SpeechEvent::SplitDone(true),
            SpeechEvent::FilesListed(vec!["episode.m4a".to_string()]),
        ],
    ));
    gives_up(with(created(), vec![SpeechEvent::SplitDone(true)]));
}

#[test]
fn audio_above_the_ceiling_is_given_up() {
    assert_eq!(MAX_AUDIO_BYTES, 500 * 1024 * 1024);
    assert!(fits_ceiling(MAX_AUDIO_BYTES));
    assert!(!fits_ceiling(MAX_AUDIO_BYTES + 1));
    let created = || vec![SpeechEvent::WorkspaceCreated(true)];
    gives_up(with(created(), vec![SpeechEvent::Answered(true, Some(MAX_AUDIO_BYTES + 1))]));
    gives_up(with(
        created(),
        vec![SpeechEvent::Answered(true, None), SpeechEvent::Stored(Some(MAX_AUDIO_BYTES + 1))],
    ));
    let (_, action) = after(with(
        created(),
        vec![SpeechEvent::Answered(true, Some(MAX_AUDIO_BYTES)), SpeechEvent::Stored(Some(MAX_AUDIO_BYTES))],
    ));
    assert!(matches!(action, SpeechAction::Split(_)));
}

/// The files that are sent off of an episode of three segments under a limit, and
/// the time in seconds that the last one is trimmed to.
fn sent_under(max_minutes: u32) -> (Vec<String>, Option<String>) {
    let (mut state, mut action) = transcribe_by_chunks("key", "https://a/ep.M4A", max_minutes);
    let mut events = listed().into_iter();
    let mut read = String::new();
    let mut sent = Vec::new();
    let mut trimmed = None;
    loop {
        let event = match action {
            SpeechAction::Trim(args) => {
                assert!(matches!(&args[4], SplitArg::InWorkspace(name) if *name == format!("chunk_{:03}.m4a", sent.len())));
                match &args[6] {
                    SplitArg::Plain(time) => trimmed = Some(time.clone()),
                    SplitArg::InWorkspace(_) => panic!("no time"),
                }
                SpeechEvent::Trimmed(true)
            }
            SpeechAction::ReadChunk(name) => {
                read = name;
                SpeechEvent::ChunkRead(Some(9))
            }
            SpeechAction::Upload(name, _) => {
                assert_eq!(name, format!("chunk_{:03}.m4a", sent.len()));
                sent.push(read.clone());
                part("x")
            }
            SpeechAction::RemoveWorkspace => SpeechEvent::WorkspaceRemoved,
            SpeechAction::Finish(text) => {
                assert_eq!(text.is_some(), !sent.is_empty());
                return (sent, trimmed);
            }
            _ => events.next().unwrap(),
        };
        let next = state.step(event);
        state = next.0;
        action = next.1;
    }
}

#[test]
fn no_more_minutes_are_sent_off_than_allowed() {
    let files = |list: &[&str]| list.iter().map(|n| n.to_string()).collect::<Vec<String>>();
    let all = files(&["chunk_000.m4a", "chunk_001.m4a", "chunk_002.m4a"]);
    assert_eq!(sent_under(90), (all.clone(), None));
    assert_eq!(sent_under(30), (all, None));
    assert_eq!(
        sent_under(29),
        (files(&["chunk_000.m4a", "chunk_001.m4a", "trimmed.m4a"]), Some("540".to_string()))
    );
    assert_eq!(sent_under(15), (files(&["chunk_000.m4a", "trimmed.m4a"]), Some("300".to_string())));
    assert_eq!(sent_under(5), (files(&["trimmed.m4a"]), Some("300".to_string())));
    assert_eq!(sent_under(0), (Vec::new(), None));
}

#[test]
fn a_segment_that_cannot_be_trimmed_is_passed_over() {
    let (mut state, _) = transcribe_by_chunks("key", "https://a/ep.m4a", 15);
    for event in with(listed(), vec![SpeechEvent::ChunkRead(Some(9)), part("first")]) {
        state = state.step(event).0;
    }
    let (state, action) = state.step(SpeechEvent::Trimmed(false));
    assert!(matches!(action, SpeechAction::RemoveWorkspace));
    let (_, action) = state.step(SpeechEvent::WorkspaceRemoved);
    assert!(matches!(action, SpeechAction::Finish(Some(text)) if text == "first"));
}

#[test]
fn a_segment_that_is_too_large_is_passed_over() {
    assert_eq!(CHUNK_BYTES_BOUND, 25_000_000);
    assert!(fits_chunk_bound(24_999_999));
    assert!(!fits_chunk_bound(25_000_000));
    let (state, action) = after(with(listed(), vec![SpeechEvent::ChunkRead(Some(25_000_000))]));
    assert!(matches!(action, SpeechAction::ReadChunk(name) if name == "chunk_001.m4a"));
    let (_, action) = state.step(SpeechEvent::ChunkRead(Some(24_999_999)));
    assert!(matches!(action, SpeechAction::Upload(name, _) if name == "chunk_001.m4a"));
}
