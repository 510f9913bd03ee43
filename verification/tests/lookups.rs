use podcast::apple::AppleIds;
use podcast::lookup::{parse_lookup, select_episode, EpisodeInfo, LookupEntry};

type Told = Option<(String, Option<String>, Option<String>)>;

fn answer(body: &str, episode_id: Option<&str>) -> Told {
    let ids = AppleIds { collection_id: "1".to_string(), episode_id: episode_id.map(|id| id.to_string()) };
    parse_lookup(body.as_bytes(), &ids).map(|EpisodeInfo { title, episode_url, feed_url }| (title, episode_url, feed_url))
}

/// What the answer to the lookup of an episode tells.
fn told(body: &str) -> Told {
    answer(body, Some("2"))
}

/// What the answer to the lookup of a show tells.
fn told_of_show(body: &str) -> Told {
    answer(body, None)
}

#[test]
fn a_show_leads_to_its_latest_episode() {
    let body = r#"{"results":[
        {"collectionName":"Show","feedUrl":"f","releaseDate":"2030-01-01T00:00:00Z"},
        {"episodeUrl":"1","trackName":"One","releaseDate":"2024-05-01T07:00:00Z"},
        {"episodeUrl":"2","trackName":"Two","releaseDate":"2024-05-08T07:00:00Z"},
        {"episodeUrl":"3","trackName":"Three","releaseDate":"2024-05-08T07:00:00Z"},
        {"episodeUrl":"4","trackName":"Four"},
        {"episodeUrl":null,"trackName":"Five","releaseDate":"2025-01-01T00:00:00Z"}]}"#;
    assert_eq!(told_of_show(body), Some(("Two".to_string(), some("2"), some("f"))));
    assert_eq!(told(body), Some(("One".to_string(), some("1"), some("f"))));
}

#[test]
fn without_dates_a_show_leads_to_its_first_episode_with_audio() {
    let body = r#"{"results":[{"episodeUrl":null,"trackName":"A"},{"episodeUrl":"1","trackName":"B"},{"episodeUrl":"2"}]}"#;
    assert_eq!(told_of_show(body), Some(("B".to_string(), some("1"), None)));
    let dated = r#"{"results":[{"episodeUrl":"1","trackName":"A"},{"episodeUrl":"2","releaseDate":"2020"}]}"#;
    assert_eq!(told_of_show(dated), Some((String::new(), some("2"), None)));
}

#[test]
fn a_show_without_audio_keeps_the_title_of_its_first_episode() {
    let body = r#"{"results":[{"collectionName":"Show","feedUrl":"f"},{"episodeUrl":null,"trackName":"T"}]}"#;
    assert_eq!(told_of_show(body), Some(("T".to_string(), None, some("f"))));
    let only_show = r#"{"results":[{"collectionName":"Show","feedUrl":"f"}]}"#;
    assert_eq!(told_of_show(only_show), Some(("Show".to_string(), None, some("f"))));
}

fn some(text: &str) -> Option<String> {
    Some(text.to_string())
}

#[test]
fn reads_the_first_episode_and_the_first_feed() {
    let body = r#"{"resultCount":3,"results":[
        {"collectionName":"Show","feedUrl":"https://f/1"},
        {"episodeUrl":"https://a/1.mp3","trackName":"One","feedUrl":"https://f/2"},
        {"episodeUrl":"https://a/2.mp3","trackName":"Two"}]}"#;
    assert_eq!(told(body), Some(("One".to_string(), some("https://a/1.mp3"), some("https://f/1"))));
}

#[test]
fn the_feed_may_stand_on_a_later_entry() {
    let body = r#"{"results":[{"episodeUrl":"u","trackName":"T","feedUrl":7},{"feedUrl":"f"}]}"#;
    assert_eq!(told(body), Some(("T".to_string(), some("u"), some("f"))));
}

#[test]
fn without_an_episode_the_title_is_that_of_the_first_entry() {
    let body = r#"{"results":[{"collectionName":"Show","trackName":"no"},{"collectionName":"Other","feedUrl":"f"}]}"#;
    assert_eq!(told(body), Some(("Show".to_string(), None, some("f"))));
}

#[test]
fn missing_titles_are_empty() {
    assert_eq!(told(r#"{"results":[{"episodeUrl":"u"}]}"#), Some((String::new(), some("u"), None)));
    assert_eq!(told(r#"{"results":[{"feedUrl":"f","collectionName":null}]}"#), Some((String::new(), None, some("f"))));
}

#[test]
fn an_episode_url_that_is_no_string_still_marks_the_episode() {
    let body = r#"{"results":[{"episodeUrl":null,"trackName":"T","feedUrl":"f"},{"episodeUrl":"u","trackName":"U"}]}"#;
    assert_eq!(told(body), Some(("T".to_string(), None, some("f"))));
    assert_eq!(told(r#"{"results":[{"episodeUrl":1},{"episodeUrl":"u"}]}"#), None);
}

#[test]
fn escapes_in_the_answer_are_resolved() {
    let body = r#"{"results":[{"episodeUrl":"https:\/\/a\/1","trackName":"Aé\n"}]}"#;
    assert_eq!(told(body), Some(("A\u{e9}\n".to_string(), some("https://a/1"), None)));
}

#[test]
fn answers_that_tell_nothing() {
    assert_eq!(told(""), None);
    assert_eq!(told("not json"), None);
    assert_eq!(told("{}"), None);
    assert_eq!(told("[]"), None);
    assert_eq!(told(r#"{"results":{}}"#), None);
    assert_eq!(told(r#"{"results":[]}"#), None);
    assert_eq!(told(r#"{"results":["x",{"trackName":"T"}]}"#), None);
    let ids = AppleIds { collection_id: "1".to_string(), episode_id: None };
    assert!(parse_lookup(&[0xff], &ids).is_none());
}

#[test]
fn selects_among_entries() {
    let entry = |is_episode: bool, url: Option<&str>| LookupEntry {
        is_episode,
        episode_url: url.map(|u| u.to_string()),
        feed_url: None,
        track_name: some("T"),
        collection_name: some("C"),
        release_date: None,
    };
    let info = select_episode(&vec![entry(false, None), entry(true, Some("u"))], false).unwrap();
    assert_eq!(info.title, "T");
    assert_eq!(info.episode_url.as_deref(), Some("u"));
    assert!(select_episode(&vec![entry(false, None)], true).is_none());
    assert!(select_episode(&Vec::new(), true).is_none());
}
