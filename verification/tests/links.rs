use podcast::apple::{find_apple_link, lookup_url, parse_apple_url, AppleIds};

#[test]
fn parses_full_episode_url() {
    let url = "https://podcasts.apple.com/tw/podcast/some-show/id1500000000?i=1000600000000";
    let ids = parse_apple_url(url).unwrap();
    assert_eq!(ids.collection_id, "1500000000");
    assert_eq!(ids.episode_id.as_deref(), Some("1000600000000"));
}

#[test]
fn parses_show_only_url() {
    let url = "https://podcasts.apple.com/us/podcast/the-daily/id1200361736";
    let ids = parse_apple_url(url).unwrap();
    assert_eq!(ids.collection_id, "1200361736");
    assert_eq!(ids.episode_id, None);
}

#[test]
fn parses_url_with_extra_query_params() {
    let url = "https://podcasts.apple.com/gb/podcast/x/id42?i=99&l=en";
    let ids = parse_apple_url(url).unwrap();
    assert_eq!(ids.collection_id, "42");
    assert_eq!(ids.episode_id.as_deref(), Some("99"));
}

#[test]
fn rejects_non_apple_url() {
    assert!(parse_apple_url("https://example.com/podcast/id1").is_none());
}

#[test]
fn rejects_a_url_that_only_mentions_apple() {
    assert!(parse_apple_url("https://example.com/?u=https://podcasts.apple.com/x/id1").is_none());
    assert!(parse_apple_url("https://podcasts.apple.community/x/id1").is_none());
    assert!(parse_apple_url("https://podcasts-apple.com/x/id1").is_none());
    assert!(parse_apple_url("").is_none());
    assert!(parse_apple_url("example.com?u=https://podcasts.apple.com/x/id1").is_none());
    assert!(parse_apple_url("https://podcasts.apple.com@example.com/id1").is_none());
    assert!(parse_apple_url("https://podcasts.apple.com.example.com/id1").is_none());
    assert!(parse_apple_url("/podcasts.apple.com/id1").is_none());
}

#[test]
fn an_apple_host_is_known_however_it_is_written() {
    for url in [
        "podcasts.apple.com/us/podcast/x/id42?i=99",
        "//podcasts.apple.com/us/podcast/x/id42?i=99",
        "HTTPS://podcasts.apple.com/us/podcast/x/id42?i=99",
        "https://Podcasts.Apple.COM/us/podcast/x/id42?i=99",
        "https://podcasts.apple.com:443/x/id42?i=99",
        "https://podcasts.apple.com/ x/id42?i=99",
        " https://podcasts.apple.com/x/id42?i=99",
        " podcasts.apple.com/x/id42?i=99",
        "see https://podcasts.apple.com/x/id42?i=99",
    ] {
        let ids = parse_apple_url(url).unwrap();
        assert_eq!(ids.collection_id, "42");
        assert_eq!(ids.episode_id.as_deref(), Some("99"));
    }
}

#[test]
fn an_apple_url_without_a_collection_has_no_identifiers() {
    assert!(parse_apple_url("https://podcasts.apple.com/us/browse").is_none());
    assert!(parse_apple_url("https://podcasts.apple.com/us/podcast/x?i=99").is_none());
    assert!(parse_apple_url("https://podcasts.apple.com/us/podcast/x/id").is_none());
    assert!(parse_apple_url("https://podcasts.apple.com/").is_none());
}

#[test]
fn reads_the_first_marker_that_digits_follow() {
    let ids = parse_apple_url("http://podcasts.apple.com/identity/idea/id7/id8?x=1&i=5&i=6").unwrap();
    assert_eq!(ids.collection_id, "7");
    assert_eq!(ids.episode_id.as_deref(), Some("5"));
    let ids = parse_apple_url("https://podcasts.apple.com/x/id7?i=abc").unwrap();
    assert_eq!(ids.episode_id, None);
    let ids = parse_apple_url("https://podcasts.apple.com/x/id12ab?i=34cd").unwrap();
    assert_eq!(ids, AppleIds { collection_id: "12".to_string(), episode_id: Some("34".to_string()) });
}

#[test]
fn identifiers_of_an_apple_url_may_be_digits_of_another_script() {
    let ids = parse_apple_url("https://podcasts.apple.com/x/id1\u{661}2").unwrap();
    assert_eq!(ids.collection_id, "1\u{661}2");
}

#[test]
fn finds_a_link_anywhere_in_a_message() {
    assert_eq!(
        find_apple_link("hear this https://podcasts.apple.com/us/podcast/x/id42?i=9 and tell me"),
        Some("https://podcasts.apple.com/us/podcast/x/id42?i=9".to_string())
    );
    assert_eq!(
        find_apple_link("http://podcasts.apple.com/a\nhttps://podcasts.apple.com/b"),
        Some("http://podcasts.apple.com/a".to_string())
    );
    assert_eq!(
        find_apple_link("\u{4e2d}https://podcasts.apple.com/\u{4e2d}\u{3000}x"),
        Some("https://podcasts.apple.com/\u{4e2d}".to_string())
    );
}

#[test]
fn finds_no_link_where_there_is_none() {
    assert_eq!(find_apple_link(""), None);
    assert_eq!(find_apple_link("https://podcasts.apple.com/"), None);
    assert_eq!(find_apple_link("https://podcasts.apple.com/ x"), None);
    assert_eq!(find_apple_link("ftp://podcasts.apple.com/x"), None);
    assert_eq!(find_apple_link("https://podcastsXappleXcom/x"), None);
}

#[test]
fn a_found_link_is_parsed() {
    let link = find_apple_link("@bot https://podcasts.apple.com/us/podcast/x/id42?i=9 please").unwrap();
    let ids = parse_apple_url(&link).unwrap();
    assert_eq!(ids.collection_id, "42");
    assert_eq!(ids.episode_id.as_deref(), Some("9"));
}

#[test]
fn looks_up_the_episode_where_there_is_one() {
    let episode = AppleIds { collection_id: "42".to_string(), episode_id: Some("99".to_string()) };
    assert_eq!(
        lookup_url(&episode),
        "https://itunes.apple.com/lookup?id=99&entity=podcastEpisode&limit=200"
    );
    let show = AppleIds { collection_id: "42".to_string(), episode_id: None };
    assert_eq!(
        lookup_url(&show),
        "https://itunes.apple.com/lookup?id=42&entity=podcastEpisode&limit=200"
    );
}

#[test]
fn an_appended_episode_keeps_the_show() {
    for url in [
        "https://podcasts.apple.com/us/podcast/the-daily/id1200361736",
        "https://podcasts.apple.com/x/id7/more",
        "https://podcasts.apple.com/x/id1\u{661}2",
        "https://podcasts.apple.com/us/browse",
        "https://podcasts.apple.com/",
        "https://example.com/id1",
    ] {
        let show = parse_apple_url(url);
        let episode = parse_apple_url(&format!("{url}?i=99"));
        if let Some(ids) = &show {
            assert_eq!(ids.episode_id, None);
        }
        assert_eq!(
            episode,
            show.map(|ids| AppleIds { collection_id: ids.collection_id, episode_id: Some("99".to_string()) })
        );
    }
}
