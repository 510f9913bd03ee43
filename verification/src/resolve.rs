//! From a link to a transcript: which source is asked when, and what comes out.
//!
//! The requests are made by whoever drives a [`Resolution`]: it performs each
//! [`ResolveAction`] and reports back with a [`ResolveEvent`] until the action is
//! [`ResolveAction::Finish`].
use vstd::prelude::*;
use crate::apple;
use crate::apple::{AppleIds, AppleIdsView};
use crate::feed;
use crate::feed::{RssItem, RssItemView};
use crate::lookup;
use crate::lookup::{EpisodeInfo, EpisodeInfoView};
use crate::speech;
use crate::speech::SpeechActionView;
use crate::text;
use crate::transcript;
use crate::xml_reader;

verus! {

/// An episode and its transcript.
#[derive(Debug)]
pub struct PodcastResult {
    pub title: String,
    pub transcript: String,
}

/// What a [`PodcastResult`] holds.
pub struct PodcastResultView {
    pub title: Seq<char>,
    pub transcript: Seq<char>,
}

impl DeepView for PodcastResult {
    type V = PodcastResultView;

    open spec fn deep_view(&self) -> PodcastResultView {
        PodcastResultView { title: self.title@, transcript: self.transcript@ }
    }
}

/// What is to be done next.
#[derive(Debug)]
pub enum ResolveAction {
    /// Send this lookup request.
    Lookup(String),
    /// Fetch the feed at this address.
    FetchFeed(String),
    /// Fetch the published transcript at this address.
    FetchTranscript(String),
    /// Have the audio at this address transcribed.
    Transcribe(String),
    /// Nothing: this is the outcome.
    Finish(Option<PodcastResult>),
}

/// What a [`ResolveAction`] holds.
pub enum ResolveActionView {
    Lookup(Seq<char>),
    FetchFeed(Seq<char>),
    FetchTranscript(Seq<char>),
    Transcribe(Seq<char>),
    Finish(Option<PodcastResultView>),
}

impl DeepView for ResolveAction {
    type V = ResolveActionView;

    open spec fn deep_view(&self) -> ResolveActionView {
        match self {
            ResolveAction::Lookup(url) => ResolveActionView::Lookup(url@),
            ResolveAction::FetchFeed(url) => ResolveActionView::FetchFeed(url@),
            ResolveAction::FetchTranscript(url) => ResolveActionView::FetchTranscript(url@),
            ResolveAction::Transcribe(url) => ResolveActionView::Transcribe(url@),
            ResolveAction::Finish(result) => ResolveActionView::Finish(result.deep_view()),
        }
    }
}

/// What came of an action. `None` stands for a request that failed or was not
/// answered with success, and for a transcription that yielded nothing.
#[derive(Debug)]
pub enum ResolveEvent {
    /// The body of the lookup answer.
    LookedUp(Option<Vec<u8>>),
    /// The feed document.
    FeedFetched(Option<String>),
    /// The published transcript, as it was downloaded.
    TranscriptFetched(Option<String>),
    /// The transcript of the audio.
    Transcribed(Option<String>),
}

/// What a [`ResolveEvent`] holds.
pub enum ResolveEventView {
    LookedUp(Option<Seq<u8>>),
    FeedFetched(Option<Seq<char>>),
    TranscriptFetched(Option<Seq<char>>),
    Transcribed(Option<Seq<char>>),
}

impl DeepView for ResolveEvent {
    type V = ResolveEventView;

    open spec fn deep_view(&self) -> ResolveEventView {
        match self {
            ResolveEvent::LookedUp(body) => ResolveEventView::LookedUp(
                match body {
                    Some(bytes) => Some(bytes@),
                    None => None,
                },
            ),
            ResolveEvent::FeedFetched(xml) => ResolveEventView::FeedFetched(xml.deep_view()),
            ResolveEvent::TranscriptFetched(raw) => ResolveEventView::TranscriptFetched(
                raw.deep_view(),
            ),
            ResolveEvent::Transcribed(text) => ResolveEventView::Transcribed(text.deep_view()),
        }
    }
}

/// Where the resolution of a link stands: what it waits for, and what is known
/// of the episode.
#[derive(Debug)]
pub enum Resolution {
    /// The answer to the lookup of these identifiers.
    Lookup(AppleIds),
    /// The feed of this episode.
    Feed(EpisodeInfo),
    /// The published transcript of this type, for an episode with this title
    /// and audio.
    Published(String, Option<String>, Option<String>),
    /// The transcript of the audio, for an episode with this title.
    Speech(String),
    /// Nothing.
    Done,
}

/// What a [`Resolution`] holds.
pub enum ResolutionView {
    Lookup(AppleIdsView),
    Feed(EpisodeInfoView),
    Published(Seq<char>, Option<Seq<char>>, Option<Seq<char>>),
    Speech(Seq<char>),
    Done,
}

impl DeepView for Resolution {
    type V = ResolutionView;

    open spec fn deep_view(&self) -> ResolutionView {
        match self {
            Resolution::Lookup(ids) => ResolutionView::Lookup(ids.deep_view()),
            Resolution::Feed(info) => ResolutionView::Feed(info.deep_view()),
            Resolution::Published(title, typ, audio) => ResolutionView::Published(
                title@,
                typ.deep_view(),
                audio.deep_view(),
            ),
            Resolution::Speech(title) => ResolutionView::Speech(title@),
            Resolution::Done => ResolutionView::Done,
        }
    }
}

// ---------------------------------------------------------------------------
// The rules
// ---------------------------------------------------------------------------

/// The end, with this outcome.
pub open spec fn finish(result: Option<PodcastResultView>) -> (ResolutionView, ResolveActionView) {
    (ResolutionView::Done, ResolveActionView::Finish(result))
}

/// On to the transcription of the audio; without audio, to the end.
pub open spec fn to_speech(title: Seq<char>, audio: Option<Seq<char>>) -> (
    ResolutionView,
    ResolveActionView,
) {
    match audio {
        Some(url) => (ResolutionView::Speech(title), ResolveActionView::Transcribe(url)),
        None => finish(None),
    }
}

/// `first`, or `second` where there is no `first`.
pub open spec fn or_else(first: Option<Seq<char>>, second: Option<Seq<char>>) -> Option<Seq<char>> {
    if first is Some {
        first
    } else {
        second
    }
}

/// The title of an episode: that of the lookup, or of the feed where the
/// lookup has none.
pub open spec fn title_of(info: EpisodeInfoView, item: RssItemView) -> Seq<char> {
    if info.title.len() == 0 {
        item.title
    } else {
        info.title
    }
}

/// On from the lookup: to the feed where there is one, and else to the audio.
pub open spec fn from_lookup(info: Option<EpisodeInfoView>) -> (ResolutionView, ResolveActionView) {
    match info {
        None => finish(None),
        Some(info) => match info.feed_url {
            Some(url) => (ResolutionView::Feed(info), ResolveActionView::FetchFeed(url)),
            None => to_speech(info.title, info.episode_url),
        },
    }
}

/// On from the feed: to the published transcript where the item has one, and
/// else to the audio.
pub open spec fn from_feed(info: EpisodeInfoView, item: Option<RssItemView>) -> (
    ResolutionView,
    ResolveActionView,
) {
    match item {
        None => to_speech(info.title, info.episode_url),
        Some(item) => {
            let title = title_of(info, item);
            let audio = or_else(info.episode_url, item.enclosure_url);
            match item.transcript_url {
                Some(url) => (
                    ResolutionView::Published(title, item.transcript_type, audio),
                    ResolveActionView::FetchTranscript(url),
                ),
                None => to_speech(title, audio),
            }
        },
    }
}

/// On from the published transcript: to the end where it says something, and
/// else to the audio.
pub open spec fn from_published(
    title: Seq<char>,
    audio: Option<Seq<char>>,
    published: Option<Seq<char>>,
) -> (ResolutionView, ResolveActionView) {
    match published {
        Some(transcript) => finish(Some(PodcastResultView { title, transcript })),
        None => to_speech(title, audio),
    }
}

/// The end, with what the transcription yielded.
pub open spec fn from_speech(title: Seq<char>, text: Option<Seq<char>>) -> (
    ResolutionView,
    ResolveActionView,
) {
    match text {
        Some(transcript) => finish(Some(PodcastResultView { title, transcript })),
        None => finish(None),
    }
}

/// The item of a feed for an episode.
pub open spec fn item_in(xml: Option<Seq<char>>, info: EpisodeInfoView) -> Option<RssItemView> {
    match xml {
        Some(xml) => feed::chosen_item(
            feed::rss_items(xml_reader::xml_events(xml)),
            info.episode_url,
        ),
        None => None,
    }
}

/// The text of a published transcript.
pub open spec fn text_in(raw: Option<Seq<char>>, typ: Option<Seq<char>>) -> Option<Seq<char>> {
    match raw {
        Some(raw) => transcript::plain_transcript(raw, typ),
        None => None,
    }
}

/// What the answer to the lookup of `ids` tells.
pub open spec fn info_in(body: Option<Seq<u8>>, ids: AppleIdsView) -> Option<EpisodeInfoView> {
    match body {
        Some(body) => lookup::episode_in(body, ids),
        None => None,
    }
}

/// The first state and action for a link.
pub open spec fn resolve_start(url: Seq<char>) -> (ResolutionView, ResolveActionView) {
    match apple::apple_ids(url) {
        Some(ids) => (
            ResolutionView::Lookup(ids),
            ResolveActionView::Lookup(apple::lookup_request(ids)),
        ),
        None => finish(None),
    }
}

/// The next state and action after an event. An event that does not answer the
/// action ends the resolution without a transcript.
pub open spec fn resolve_step(state: ResolutionView, event: ResolveEventView) -> (
    ResolutionView,
    ResolveActionView,
) {
    match (state, event) {
        (ResolutionView::Lookup(ids), ResolveEventView::LookedUp(body)) => from_lookup(
            info_in(body, ids),
        ),
        (ResolutionView::Feed(info), ResolveEventView::FeedFetched(xml)) => from_feed(
            info,
            item_in(xml, info),
        ),
        (
            ResolutionView::Published(title, typ, audio),
            ResolveEventView::TranscriptFetched(raw),
        ) => from_published(title, audio, text_in(raw, typ)),
        (ResolutionView::Speech(title), ResolveEventView::Transcribed(text)) => from_speech(
            title,
            text,
        ),
        _ => finish(None),
    }
}

// ---------------------------------------------------------------------------
// The machine
// ---------------------------------------------------------------------------

/// Begins the resolution of a link.
pub fn fetch_transcript(url: &str) -> (r: (Resolution, ResolveAction))
    ensures
        (r.0.deep_view(), r.1.deep_view()) == resolve_start(url@),
{
    match apple::parse_apple_url(url) {
        Some(ids) => {
            let url = apple::lookup_url(&ids);
            (Resolution::Lookup(ids), ResolveAction::Lookup(url))
        },
        None => (Resolution::Done, ResolveAction::Finish(None)),
    }
}

fn speak(title: String, audio: Option<String>) -> (r: (Resolution, ResolveAction))
    ensures
        (r.0.deep_view(), r.1.deep_view()) == to_speech(title@, audio.deep_view()),
{
    match audio {
        Some(url) => (Resolution::Speech(title), ResolveAction::Transcribe(url)),
        None => (Resolution::Done, ResolveAction::Finish(None)),
    }
}

/// Goes on from what the lookup told.
pub fn after_lookup(info: Option<EpisodeInfo>) -> (r: (Resolution, ResolveAction))
    ensures
        (r.0.deep_view(), r.1.deep_view()) == from_lookup(info.deep_view()),
{
    match info {
        None => (Resolution::Done, ResolveAction::Finish(None)),
        Some(info) => {
            let feed_url = match &info.feed_url {
                Some(url) => Some(url.clone()),
                None => None,
            };
            match feed_url {
                Some(url) => (Resolution::Feed(info), ResolveAction::FetchFeed(url)),
                None => speak(info.title, info.episode_url),
            }
        },
    }
}

/// Goes on from the item that was found in the feed.
pub fn after_feed(info: EpisodeInfo, item: Option<RssItem>) -> (r: (Resolution, ResolveAction))
    ensures
        (r.0.deep_view(), r.1.deep_view()) == from_feed(info.deep_view(), item.deep_view()),
{
    let EpisodeInfo { title, episode_url, feed_url: _ } = info;
    match item {
        None => speak(title, episode_url),
        Some(item) => {
            let RssItem { title: item_title, enclosure_url, transcript_url, transcript_type } =
                item;
            let title = if title.as_str().is_empty() {
                item_title
            } else {
                title
            };
            let audio = if episode_url.is_some() {
                episode_url
            } else {
                enclosure_url
            };
            match transcript_url {
                Some(url) => (
                    Resolution::Published(title, transcript_type, audio),
                    ResolveAction::FetchTranscript(url),
                ),
                None => speak(title, audio),
            }
        },
    }
}

/// Goes on from the text of the published transcript.
pub fn after_published(title: String, audio: Option<String>, published: Option<String>) -> (r: (
    Resolution,
    ResolveAction,
))
    ensures
        (r.0.deep_view(), r.1.deep_view()) == from_published(
            title@,
            audio.deep_view(),
            published.deep_view(),
        ),
{
    match published {
        Some(transcript) => (
            Resolution::Done,
            ResolveAction::Finish(Some(PodcastResult { title, transcript })),
        ),
        None => speak(title, audio),
    }
}

fn as_deref(text: &Option<String>) -> (r: Option<&str>)
    ensures
        r.deep_view() == text.deep_view(),
{
    match text {
        Some(t) => Some(t.as_str()),
        None => None,
    }
}

impl Resolution {
    /// Takes in what came of the last action, and says what is to be done next.
    pub fn step(self, event: ResolveEvent) -> (r: (Resolution, ResolveAction))
        ensures
            (r.0.deep_view(), r.1.deep_view()) == resolve_step(
                self.deep_view(),
                event.deep_view(),
            ),
    {
        match (self, event) {
            (Resolution::Lookup(ids), ResolveEvent::LookedUp(body)) => after_lookup(
                match body {
                    Some(body) => lookup::parse_lookup(body.as_slice(), &ids),
                    None => None,
                },
            ),
            (Resolution::Feed(info), ResolveEvent::FeedFetched(xml)) => {
                let item = match xml {
                    Some(xml) => feed::find_rss_item(xml.as_str(), as_deref(&info.episode_url)),
                    None => None,
                };
                after_feed(info, item)
            },
            (Resolution::Published(title, typ, audio), ResolveEvent::TranscriptFetched(raw)) => {
                let published = match raw {
                    Some(raw) => transcript::normalize_transcript(raw.as_str(), as_deref(&typ)),
                    None => None,
                };
                after_published(title, audio, published)
            },
            (Resolution::Speech(title), ResolveEvent::Transcribed(text)) => match text {
                Some(transcript) => (
                    Resolution::Done,
                    ResolveAction::Finish(Some(PodcastResult { title, transcript })),
                ),
                None => (Resolution::Done, ResolveAction::Finish(None)),
            },
            _ => (Resolution::Done, ResolveAction::Finish(None)),
        }
    }
}

// ---------------------------------------------------------------------------
// Laws
// ---------------------------------------------------------------------------

/// What the outside answers to a request for an address: the lookup, a download,
/// and the transcription of audio. `None` stands for a failure.
pub struct World {
    pub lookup: spec_fn(Seq<char>) -> Option<Seq<u8>>,
    pub download: spec_fn(Seq<char>) -> Option<Seq<char>>,
    pub transcribe: spec_fn(Seq<char>) -> Option<Seq<char>>,
}

/// The event with which a world replies to an action.
pub open spec fn reply(action: ResolveActionView, world: World) -> ResolveEventView {
    match action {
        ResolveActionView::Lookup(url) => ResolveEventView::LookedUp((world.lookup)(url)),
        ResolveActionView::FetchFeed(url) => ResolveEventView::FeedFetched((world.download)(url)),
        ResolveActionView::FetchTranscript(url) => ResolveEventView::TranscriptFetched(
            (world.download)(url),
        ),
        ResolveActionView::Transcribe(url) => ResolveEventView::Transcribed(
            (world.transcribe)(url),
        ),
        ResolveActionView::Finish(_) => ResolveEventView::Transcribed(None),
    }
}

/// The outcome of a resolution that is driven in a world for up to `rounds`
/// actions; `None` where it has not come to an end by then.
pub open spec fn drive(
    now: (ResolutionView, ResolveActionView),
    world: World,
    rounds: nat,
) -> Option<Option<PodcastResultView>>
    decreases rounds,
{
    match now.1 {
        ResolveActionView::Finish(result) => Some(result),
        action => if rounds == 0 {
            None
        } else {
            drive(resolve_step(now.0, reply(action, world)), world, (rounds - 1) as nat)
        },
    }
}

/// What the lookup tells about a link.
pub open spec fn info_for(url: Seq<char>, world: World) -> Option<EpisodeInfoView> {
    match apple::apple_ids(url) {
        Some(ids) => info_in((world.lookup)(apple::lookup_request(ids)), ids),
        None => None,
    }
}

/// The item of the feed for an episode, where the episode has a feed.
pub open spec fn item_for(info: EpisodeInfoView, world: World) -> Option<RssItemView> {
    match info.feed_url {
        Some(url) => item_in((world.download)(url), info),
        None => None,
    }
}

/// The transcript that the feed publishes for an item.
pub open spec fn published_for(item: RssItemView, world: World) -> Option<Seq<char>> {
    match item.transcript_url {
        Some(url) => text_in((world.download)(url), item.transcript_type),
        None => None,
    }
}

/// What the transcription of audio yields, where there is audio.
pub open spec fn spoken_for(
    title: Seq<char>,
    audio: Option<Seq<char>>,
    world: World,
) -> Option<PodcastResultView> {
    match audio {
        Some(url) => match (world.transcribe)(url) {
            Some(transcript) => Some(PodcastResultView { title, transcript }),
            None => None,
        },
        None => None,
    }
}

/// The outcome for an episode: the transcript that its feed publishes; failing
/// that, the transcript of its audio.
pub open spec fn outcome(info: EpisodeInfoView, world: World) -> Option<PodcastResultView> {
    match item_for(info, world) {
        Some(item) => match published_for(item, world) {
            Some(transcript) => Some(
                PodcastResultView { title: title_of(info, item), transcript },
            ),
            None => spoken_for(
                title_of(info, item),
                or_else(info.episode_url, item.enclosure_url),
                world,
            ),
        },
        None => spoken_for(info.title, info.episode_url, world),
    }
}

proof fn lemma_drive_speech(title: Seq<char>, audio: Option<Seq<char>>, world: World, rounds: nat)
    requires
        rounds >= 1,
    ensures
        drive(to_speech(title, audio), world, rounds) == Some(spoken_for(title, audio, world)),
{
    let now = to_speech(title, audio);
    if audio is Some {
        let next = resolve_step(now.0, reply(now.1, world));
        assert(drive(next, world, (rounds - 1) as nat) == Some(spoken_for(title, audio, world)));
    }
}

proof fn lemma_drive_feed(info: EpisodeInfoView, world: World)
    ensures
        drive(from_feed(info, item_for(info, world)), world, 2) == Some(outcome(info, world)),
{
    match item_for(info, world) {
        None => {
            lemma_drive_speech(info.title, info.episode_url, world, 2);
        },
        Some(item) => {
            let title = title_of(info, item);
            let audio = or_else(info.episode_url, item.enclosure_url);
            let now = from_feed(info, Some(item));
            lemma_drive_speech(title, audio, world, 1);
            lemma_drive_speech(title, audio, world, 2);
            if item.transcript_url is Some {
                let next = resolve_step(now.0, reply(now.1, world));
                assert(next == from_published(title, audio, published_for(item, world)));
                assert(drive(now, world, 2) == drive(next, world, 1));
            }
        },
    }
}

/// A resolution always comes to an end, within four actions, and with this
/// outcome: nothing for a link that is not Apple's or that the lookup does not
/// know; otherwise the transcript that the feed publishes for the episode, and
/// failing that the transcript of its audio.
pub proof fn lemma_resolution_outcome(url: Seq<char>, world: World)
    ensures
        drive(resolve_start(url), world, 4) == Some(
            match info_for(url, world) {
                Some(info) => outcome(info, world),
                None => None,
            },
        ),
{
    let start = resolve_start(url);
    if apple::apple_ids(url) is Some {
        let first = resolve_step(start.0, reply(start.1, world));
        assert(first == from_lookup(info_for(url, world)));
        assert(drive(start, world, 4) == drive(first, world, 3));
        if let Some(info) = info_for(url, world) {
            lemma_drive_speech(info.title, info.episode_url, world, 3);
            if info.feed_url is Some {
                let second = resolve_step(first.0, reply(first.1, world));
                assert(second == from_feed(info, item_for(info, world)));
                lemma_drive_feed(info, world);
                assert(drive(first, world, 3) == drive(second, world, 2));
            }
        }
    }
}

/// Whether the feed of an episode publishes a transcript that says something.
pub open spec fn is_published(info: EpisodeInfoView, world: World) -> bool {
    item_for(info, world) matches Some(item) && published_for(item, world) is Some
}

/// A published transcript is preferred: with one, there is an outcome, whatever
/// becomes of the audio.
pub proof fn lemma_published_transcript_preferred(
    info: EpisodeInfoView,
    world: World,
    other: spec_fn(Seq<char>) -> Option<Seq<char>>,
)
    requires
        is_published(info, world),
    ensures
        outcome(info, world) is Some,
        outcome(info, world) == outcome(info, World { transcribe: other, ..world }),
{
}

/// Where no audio can be transcribed, only feeds that publish a transcript of
/// their own work.
pub proof fn lemma_without_speech_only_published(info: EpisodeInfoView, world: World)
    requires
        forall|url: Seq<char>| (#[trigger] (world.transcribe)(url)) is None,
    ensures
        outcome(info, world) is Some <==> is_published(info, world),
{
}

/// Where the transcription of audio never yields a blank transcript, no outcome
/// is blank.
pub proof fn lemma_outcome_is_not_blank(info: EpisodeInfoView, world: World)
    requires
        forall|url: Seq<char>|
            (#[trigger] (world.transcribe)(url)) matches Some(spoken) ==> !text::is_blank(spoken),
    ensures
        outcome(info, world) matches Some(result) ==> !text::is_blank(result.transcript),
{
    if let Some(item) = item_for(info, world) {
        if let Some(url) = item.transcript_url {
            if let Some(raw) = (world.download)(url) {
                transcript::lemma_transcript_not_blank(raw, item.transcript_type);
            }
        }
    }
}

/// Without an API key for speech-to-text, only feeds that publish a transcript
/// of their own work.
pub proof fn lemma_without_key_only_published(
    info: EpisodeInfoView,
    world: World,
    max_minutes: nat,
)
    requires
        forall|url: Seq<char>|
            speech::speech_start(Seq::empty(), url, max_minutes).1 == SpeechActionView::Finish(
                #[trigger] (world.transcribe)(url),
            ),
    ensures
        outcome(info, world) is Some <==> is_published(info, world),
{
    assert forall|url: Seq<char>| (#[trigger] (world.transcribe)(url)) is None by {
        speech::lemma_no_key_no_work(url, max_minutes);
    }
    lemma_without_speech_only_published(info, world);
}

/// The audio that is transcribed is that of the lookup; where the lookup has
/// none, that of the feed.
pub proof fn lemma_audio_of_lookup_preferred(info: EpisodeInfoView, item: RssItemView)
    requires
        item.transcript_url is None,
    ensures
        info.episode_url matches Some(url) ==> from_feed(info, Some(item)).1
            == ResolveActionView::Transcribe(url),
        info.episode_url is None ==> (item.enclosure_url matches Some(url) ==> from_feed(
            info,
            Some(item),
        ).1 == ResolveActionView::Transcribe(url)),
        info.episode_url is None && item.enclosure_url is None ==> from_feed(info, Some(item)).1
            == ResolveActionView::Finish(None),
{
}

/// Whether this is what follows where the audio is left to try: it is transcribed
/// under the title, and without audio there is no transcript.
pub open spec fn tries_audio(
    title: Seq<char>,
    audio: Option<Seq<char>>,
    next: ResolutionView,
    action: ResolveActionView,
) -> bool {
    match audio {
        Some(url) => action == ResolveActionView::Transcribe(url) && next == ResolutionView::Speech(
            title,
        ),
        None => action == ResolveActionView::Finish(None) && next == ResolutionView::Done,
    }
}

/// A link with identifiers leads to the lookup of them, and any other to nothing.
/// From the lookup it goes on to the feed where there is one, and else to the
/// audio.
pub proof fn lemma_link_and_lookup_steps(
    url: Seq<char>,
    ids: AppleIdsView,
    body: Option<Seq<u8>>,
)
    ensures
        match apple::apple_ids(url) {
            Some(found) => resolve_start(url) == (
                ResolutionView::Lookup(found),
                ResolveActionView::Lookup(apple::lookup_request(found)),
            ),
            None => resolve_start(url) == (ResolutionView::Done, ResolveActionView::Finish(None)),
        },
        ({
            let (next, action) = resolve_step(
                ResolutionView::Lookup(ids),
                ResolveEventView::LookedUp(body),
            );
            match body {
                None => action == ResolveActionView::Finish(None),
                Some(bytes) => match lookup::episode_in(bytes, ids) {
                    None => action == ResolveActionView::Finish(None),
                    Some(info) => match info.feed_url {
                        Some(feed) => action == ResolveActionView::FetchFeed(feed) && next
                            == ResolutionView::Feed(info),
                        None => tries_audio(info.title, info.episode_url, next, action),
                    },
                },
            }
        }),
{
}

/// From the feed it goes on with the item for the episode: to its published
/// transcript where it has one, and else to the audio. The title is that of the
/// lookup, or of the item where the lookup has none; the audio likewise. Without a
/// feed or an item it goes on with the lookup alone.
pub proof fn lemma_feed_step(info: EpisodeInfoView, xml: Option<Seq<char>>)
    ensures
        ({
            let (next, action) = resolve_step(
                ResolutionView::Feed(info),
                ResolveEventView::FeedFetched(xml),
            );
            let found = match xml {
                Some(text) => feed::chosen_item(
                    feed::rss_items(xml_reader::xml_events(text)),
                    info.episode_url,
                ),
                None => None,
            };
            match found {
                None => tries_audio(info.title, info.episode_url, next, action),
                Some(item) => {
                    let title = if info.title.len() > 0 {
                        info.title
                    } else {
                        item.title
                    };
                    let audio = if info.episode_url is Some {
                        info.episode_url
                    } else {
                        item.enclosure_url
                    };
                    match item.transcript_url {
                        Some(url) => action == ResolveActionView::FetchTranscript(url) && next
                            == ResolutionView::Published(title, item.transcript_type, audio),
                        None => tries_audio(title, audio, next, action),
                    }
                },
            }
        }),
{
}

/// A published transcript that says something is the outcome, under the title, and
/// so is the transcript of the audio. A published one that says nothing leads to
/// the audio, and without a transcript of that there is no outcome.
pub proof fn lemma_transcript_steps(
    title: Seq<char>,
    typ: Option<Seq<char>>,
    audio: Option<Seq<char>>,
    raw: Option<Seq<char>>,
    spoken: Option<Seq<char>>,
)
    ensures
        ({
            let (next, action) = resolve_step(
                ResolutionView::Published(title, typ, audio),
                ResolveEventView::TranscriptFetched(raw),
            );
            match raw {
                None => tries_audio(title, audio, next, action),
                Some(text) => match transcript::plain_transcript(text, typ) {
                    Some(said) => action == ResolveActionView::Finish(
                        Some((PodcastResultView { title, transcript: said })),
                    ),
                    None => tries_audio(title, audio, next, action),
                },
            }
        }),
        resolve_step(ResolutionView::Speech(title), ResolveEventView::Transcribed(spoken)).1
            == ResolveActionView::Finish(
            match spoken {
                Some(said) => Some((PodcastResultView { title, transcript: said })),
                None => None,
            },
        ),
{
}

/// An event that does not answer what was asked for ends a resolution without a
/// transcript, and what has ended stays so.
pub proof fn lemma_other_events_end(state: ResolutionView, event: ResolveEventView)
    requires
        match state {
            ResolutionView::Lookup(_) => !(event is LookedUp),
            ResolutionView::Feed(_) => !(event is FeedFetched),
            ResolutionView::Published(_, _, _) => !(event is TranscriptFetched),
            ResolutionView::Speech(_) => !(event is Transcribed),
            ResolutionView::Done => true,
        },
    ensures
        resolve_step(state, event) == (ResolutionView::Done, ResolveActionView::Finish(None)),
{
}

} // verus!
