use podcast::feed::RssItem;
use podcast::lookup::EpisodeInfo;
use podcast::resolve::{
    after_feed, after_lookup, after_published, fetch_transcript, PodcastResult, ResolveAction, ResolveEvent,
};

const LINK: &str = "https://podcasts.apple.com/us/podcast/x/id42?i=99";

struct Answers {
    lookup: Option<&'static str>,
    feed: Option<&'static str>,
    published: Option<&'static str>,
    speech: Option<&'static str>,
}

const BOTH: &str = r#"{"results":[{"episodeUrl":"https://a/ep.mp3?x=1","trackName":"Track","feedUrl":"https://f/rss"}]}"#;
const FEED_ONLY: &str = r#"{"results":[{"feedUrl":"https://f/rss"}]}"#;
const AUDIO_ONLY: &str = r#"{"results":[{"episodeUrl":"https://a/ep.mp3","trackName":"Track"}]}"#;
const RSS: &str = r#"<channel>
    <item><title>Other</title><enclosure url="https://a/other.mp3"/></item>
    <item><title>Item</title><enclosure url="https://a/ep.mp3"/><podcast:transcript url="https://t/ep.vtt" type="text/vtt"/></item>
</channel>"#;
const RSS_WITHOUT: &str = r#"<channel><item><title>Item</title><enclosure url="https://a/item.mp3"/></item></channel>"#;

/// Drives a resolution; returns the outcome and what was asked for.
fn run(link: &str, answers: &Answers) -> (Option<PodcastResult>, Vec<String>) {
    let own = |text: Option<&str>| text.map(|t| t.to_string());
    let mut asked = Vec::new();
    let (mut state, mut action) = fetch_transcript(link);
    loop {
        let event = match action {
            ResolveAction::Lookup(url) => {
                asked.push(url);
                ResolveEvent::LookedUp(answers.lookup.map(|t| t.as_bytes().to_vec()))
            }
            ResolveAction::FetchFeed(url) => {
                asked.push(url);
                ResolveEvent::FeedFetched(own(answers.feed))
            }
            ResolveAction::FetchTranscript(url) => {
                asked.push(url);
                ResolveEvent::TranscriptFetched(own(answers.published))
            }
            ResolveAction::Transcribe(url) => {
                asked.push(url);
                ResolveEvent::Transcribed(own(answers.speech))
            }
            ResolveAction::Finish(result) => return (result, asked),
        };
        let next = state.step(event);
        state = next.0;
        action = next.1;
    }
}

#[test]
fn a_published_transcript_is_preferred() {
    let answers = Answers {
        lookup: Some(BOTH),
        feed: Some(RSS),
        published: Some("WEBVTT\n\n00:00 --> 00:01\nhello\n"),
        speech: Some("not asked for"),
    };
    let (result, asked) = run(LINK, &answers);
    let result = result.unwrap();
    assert_eq!(result.title, "Track");
    assert_eq!(result.transcript, "hello");
    assert_eq!(
        asked,
        vec![
            "https://itunes.apple.com/lookup?id=99&entity=podcastEpisode&limit=200",
            "https://f/rss",
            "https://t/ep.vtt",
        ]
    );
}

#[test]
fn the_audio_is_the_fallback() {
    let blank = Some("WEBVTT\n\n00:00 --> 00:01\n");
    for published in [None, blank] {
        let answers = Answers { lookup: Some(BOTH), feed: Some(RSS), published, speech: Some("spoken") };
        let (result, asked) = run(LINK, &answers);
        assert_eq!(result.unwrap().transcript, "spoken");
        assert_eq!(asked.len(), 4);
        assert_eq!(asked[3], "https://a/ep.mp3?x=1");
    }
}

#[test]
fn without_speech_only_published_transcripts_work() {
    let answers = Answers { lookup: Some(BOTH), feed: Some(RSS), published: Some("1\nx"), speech: None };
    assert_eq!(run(LINK, &answers).0.unwrap().transcript, "x");
    let answers = Answers { lookup: Some(BOTH), feed: Some(RSS_WITHOUT), published: None, speech: None };
    assert!(run(LINK, &answers).0.is_none());
    let answers = Answers { lookup: Some(AUDIO_ONLY), feed: None, published: None, speech: None };
    assert!(run(LINK, &answers).0.is_none());
}

#[test]
fn without_a_feed_the_audio_of_the_lookup_is_transcribed() {
    let answers = Answers { lookup: Some(AUDIO_ONLY), feed: Some(RSS), published: None, speech: Some("spoken") };
    let (result, asked) = run(LINK, &answers);
    let result = result.unwrap();
    assert_eq!(result.title, "Track");
    assert_eq!(result.transcript, "spoken");
    assert_eq!(asked[1..], ["https://a/ep.mp3"]);
}

#[test]
fn a_feed_that_fails_leads_to_the_audio_of_the_lookup() {
    for feed in [None, Some("no feed")] {
        let answers = Answers { lookup: Some(BOTH), feed, published: None, speech: Some("spoken") };
        let (result, asked) = run(LINK, &answers);
        assert_eq!(result.unwrap().title, "Track");
        assert_eq!(asked[2], "https://a/ep.mp3?x=1");
        let answers = Answers { lookup: Some(FEED_ONLY), feed, published: None, speech: Some("spoken") };
        assert!(run(LINK, &answers).0.is_none());
    }
}

#[test]
fn the_feed_may_supply_title_and_audio() {
    let answers = Answers { lookup: Some(FEED_ONLY), feed: Some(RSS_WITHOUT), published: None, speech: Some("spoken") };
    let (result, asked) = run(LINK, &answers);
    assert_eq!(result.unwrap().title, "Item");
    assert_eq!(asked[2], "https://a/item.mp3");
}

#[test]
fn the_audio_of_the_lookup_comes_before_that_of_the_feed() {
    let answers = Answers { lookup: Some(BOTH), feed: Some(RSS_WITHOUT), published: None, speech: Some("spoken") };
    assert_eq!(run(LINK, &answers).1[2], "https://a/ep.mp3?x=1");
}

#[test]
fn nothing_comes_of_other_links_and_failed_lookups() {
    let all = |lookup: Option<&'static str>| Answers { lookup, feed: Some(RSS), published: Some("x"), speech: Some("y") };
    let (result, asked) = run("https://example.com/podcast/id1", &all(Some(BOTH)));
    assert!(result.is_none());
    assert!(asked.is_empty());
    assert!(run(LINK, &all(None)).0.is_none());
    assert!(run(LINK, &all(Some("{}"))).0.is_none());
    assert!(run(LINK, &all(Some(r#"{"results":[]}"#))).0.is_none());
}

#[test]
fn a_show_link_leads_to_the_latest_episode() {
    let answers = Answers {
        lookup: Some(
            r#"{"results":[
                {"episodeUrl":"https://a/1.mp3","trackName":"Old","releaseDate":"2024-01-01T00:00:00Z"},
                {"episodeUrl":"https://a/2.mp3","trackName":"New","releaseDate":"2024-02-01T00:00:00Z"}]}"#,
        ),
        feed: None,
        published: None,
        speech: Some("spoken"),
    };
    let (result, asked) = run("https://podcasts.apple.com/us/podcast/x/id42", &answers);
    assert_eq!(result.unwrap().title, "New");
    assert_eq!(asked[1], "https://a/2.mp3");
    let (result, asked) = run(LINK, &answers);
    assert_eq!(result.unwrap().title, "Old");
    assert_eq!(asked[1], "https://a/1.mp3");
}

#[test]
fn an_event_that_does_not_answer_ends_the_resolution() {
    let (state, _) = fetch_transcript(LINK);
    let (state, action) = state.step(ResolveEvent::Transcribed(Some("x".to_string())));
    assert!(matches!(action, ResolveAction::Finish(None)));
    let (_, action) = state.step(ResolveEvent::LookedUp(Some(BOTH.as_bytes().to_vec())));
    assert!(matches!(action, ResolveAction::Finish(None)));
}

fn info(title: &str, audio: Option<&str>, feed: Option<&str>) -> EpisodeInfo {
    EpisodeInfo {
        title: title.to_string(),
        episode_url: audio.map(|t| t.to_string()),
        feed_url: feed.map(|t| t.to_string()),
    }
}

#[test]
fn the_decisions_one_by_one() {
    assert!(matches!(after_lookup(None).1, ResolveAction::Finish(None)));
    assert!(matches!(after_lookup(Some(info("", None, Some("f")))).1, ResolveAction::FetchFeed(u) if u == "f"));
    assert!(matches!(after_lookup(Some(info("", Some("a"), None))).1, ResolveAction::Transcribe(u) if u == "a"));
    assert!(matches!(after_lookup(Some(info("", None, None))).1, ResolveAction::Finish(None)));

    let item = || RssItem {
        title: "Item".to_string(),
        enclosure_url: Some("e".to_string()),
        transcript_url: None,
        transcript_type: None,
    };
    assert!(matches!(after_feed(info("T", None, Some("f")), Some(item())).1, ResolveAction::Transcribe(u) if u == "e"));
    assert!(matches!(after_feed(info("T", Some("a"), Some("f")), Some(item())).1, ResolveAction::Transcribe(u) if u == "a"));
    assert!(matches!(after_feed(info("T", None, Some("f")), None).1, ResolveAction::Finish(None)));
    let mut published = item();
    published.offer_transcript(Some("t".to_string()), None);
    assert!(matches!(after_feed(info("T", None, Some("f")), Some(published)).1, ResolveAction::FetchTranscript(u) if u == "t"));

    let done = after_published("T".to_string(), None, Some("text".to_string())).1;
    assert!(matches!(done, ResolveAction::Finish(Some(r)) if r.title == "T" && r.transcript == "text"));
    assert!(matches!(after_published("T".to_string(), None, None).1, ResolveAction::Finish(None)));
    let spoken = after_published("T".to_string(), Some("a".to_string()), None).1;
    assert!(matches!(spoken, ResolveAction::Transcribe(u) if u == "a"));
}
