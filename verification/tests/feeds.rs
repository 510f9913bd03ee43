use podcast::feed::{attr, find_rss_item, is_broken, parse_rss_items, select_rss_item, FeedState, RssItem};
use podcast::xml_reader::XmlEvent;

#[test]
fn parses_rss_transcript_and_enclosure() {
    let xml = r#"<rss><channel>
            <item>
              <title>Episode One</title>
              <enclosure url="https://cdn.example.com/ep1.mp3" type="audio/mpeg"/>
              <podcast:transcript url="https://cdn.example.com/ep1.vtt" type="text/vtt"/>
            </item>
            <item>
              <title>Episode Two</title>
              <enclosure url="https://cdn.example.com/ep2.mp3"/>
            </item>
        </channel></rss>"#;
    let items = parse_rss_items(xml);
    assert_eq!(items.len(), 2);
    assert_eq!(items[0].title, "Episode One");
    assert_eq!(items[0].transcript_url.as_deref(), Some("https://cdn.example.com/ep1.vtt"));
    assert_eq!(items[0].enclosure_url.as_deref(), Some("https://cdn.example.com/ep1.mp3"));
    assert!(items[1].transcript_url.is_none());
}

#[test]
fn rss_prefers_text_transcript_over_json() {
    let xml = r#"<rss><channel><item>
            <title>X</title>
            <podcast:transcript url="https://e/ep.json" type="application/json"/>
            <podcast:transcript url="https://e/ep.vtt" type="text/vtt"/>
        </item></channel></rss>"#;
    let items = parse_rss_items(xml);
    assert_eq!(items[0].transcript_url.as_deref(), Some("https://e/ep.vtt"));
}

#[test]
fn text_is_preferred_in_the_other_order_too() {
    let xml = r#"<item>
            <podcast:transcript url="https://e/ep.vtt" type="text/vtt"/>
            <podcast:transcript url="https://e/ep.json" type="application/json"/>
        </item>"#;
    let items = parse_rss_items(xml);
    assert_eq!(items[0].transcript_url.as_deref(), Some("https://e/ep.vtt"));
    assert_eq!(items[0].transcript_type.as_deref(), Some("text/vtt"));
}

#[test]
fn without_a_text_type_the_first_transcript_stays() {
    let xml = r#"<item>
            <podcast:transcript type="text/vtt"/>
            <podcast:transcript url="https://e/1"/>
            <podcast:transcript url="https://e/2" type="application/json"/>
            <podcast:transcript url="https://e/3"/>
        </item>"#;
    let items = parse_rss_items(xml);
    assert_eq!(items[0].transcript_url.as_deref(), Some("https://e/1"));
    assert_eq!(items[0].transcript_type, None);
}

#[test]
fn the_last_text_transcript_wins() {
    let mut item = RssItem::default();
    item.offer_transcript(Some("a".to_string()), Some("text/vtt".to_string()));
    item.offer_transcript(Some("b".to_string()), Some("application/srt".to_string()));
    item.offer_transcript(None, Some("text/plain".to_string()));
    item.offer_transcript(Some("c".to_string()), Some("application/json".to_string()));
    assert_eq!(item.transcript_url.as_deref(), Some("b"));
    assert_eq!(item.transcript_type.as_deref(), Some("application/srt"));
}

#[test]
fn an_enclosure_without_a_url_changes_nothing() {
    let mut item = RssItem::default();
    assert_eq!(item.enclosure_url, None);
    item.set_enclosure(Some("a".to_string()));
    item.set_enclosure(None);
    assert_eq!(item.enclosure_url.as_deref(), Some("a"));
    item.set_enclosure(Some("b".to_string()));
    assert_eq!(item.enclosure_url.as_deref(), Some("b"));
}

#[test]
fn titles_are_unescaped_joined_and_trimmed() {
    let xml = "<rss><channel><title>Show</title><item><title>\n A &amp; B &#65;<![CDATA[ <C> & ]]>D </title></item></channel></rss>";
    let items = parse_rss_items(xml);
    assert_eq!(items.len(), 1);
    assert_eq!(items[0].title, "A & B A <C> & D");
}

#[test]
fn an_unknown_entity_leaves_its_text_out() {
    let items = parse_rss_items("<item><title>a &nosuch; b<![CDATA[c]]></title></item>");
    assert_eq!(items[0].title, "c");
}

#[test]
fn a_title_outside_an_item_is_not_read() {
    let items = parse_rss_items("<channel><title>Show</title><item></item></channel>");
    assert_eq!(items.len(), 1);
    assert_eq!(items[0].title, "");
    assert_eq!(items[0].enclosure_url, None);
    assert_eq!(items[0].transcript_url, None);
    assert_eq!(items[0].transcript_type, None);
}

#[test]
fn tags_outside_an_item_are_not_read() {
    let xml = r#"<channel><enclosure url="x"/><podcast:transcript url="y"/><item><title>t</title></item></channel>"#;
    let items = parse_rss_items(xml);
    assert_eq!(items[0].enclosure_url, None);
    assert_eq!(items[0].transcript_url, None);
}

#[test]
fn tags_are_read_in_either_spelling() {
    let items = parse_rss_items("<item><enclosure url='https://e/a.mp3'></enclosure></item>");
    assert_eq!(items.len(), 1);
    assert_eq!(items[0].enclosure_url.as_deref(), Some("https://e/a.mp3"));
    let items = parse_rss_items(
        r#"<item><podcast:transcript url="t" type="text/vtt"> x </podcast:transcript><title>y</title></item>"#,
    );
    assert_eq!(items[0].transcript_url.as_deref(), Some("t"));
    assert_eq!(items[0].transcript_type.as_deref(), Some("text/vtt"));
    assert_eq!(items[0].title, "y");
}

fn fields(xml: &str) -> Vec<(String, Option<String>, Option<String>, Option<String>)> {
    parse_rss_items(xml)
        .into_iter()
        .map(|i| (i.title, i.enclosure_url, i.transcript_url, i.transcript_type))
        .collect()
}

#[test]
fn the_items_of_joined_feeds() {
    let a = r#"<item><title>a</title><enclosure url="1"/><podcast:transcript url="t" type="x"/></item><item><enclosure url="2"/></item>"#;
    let b = r#"<item><title>b</title></item><item></item>"#;
    let mut both = fields(a);
    both.extend(fields(b));
    assert_eq!(both.len(), 4);
    assert_eq!(fields(&format!("{a}{b}")), both);
    assert_eq!(both[2], ("b".to_string(), None, None, None));
    let whole = format!("\u{feff}<!DOCTYPE rss><!-- <item> -->{a} tail ");
    assert_eq!(fields(&whole), fields(a));
    assert_eq!(fields(&format!("{whole}{b}")), both);
}

#[test]
fn a_broken_feed_is_told_from_a_whole_one() {
    assert!(!is_broken("<item><title>a</title></item>"));
    assert!(!is_broken(""));
    assert!(is_broken("<item><title>a</item>"));
    assert!(is_broken("<item></item><item"));
}

#[test]
fn attribute_values_stay_escaped() {
    let items = parse_rss_items(r#"<item><enclosure length='1' url='https://e/a?x=1&amp;y=2'/></item>"#);
    assert_eq!(items[0].enclosure_url.as_deref(), Some("https://e/a?x=1&amp;y=2"));
}

#[test]
fn a_malformed_attribute_does_not_hide_the_others() {
    let items = parse_rss_items(r#"<item><enclosure length=1 url="https://e/a.mp3"/></item>"#);
    assert_eq!(items[0].enclosure_url.as_deref(), Some("https://e/a.mp3"));
}

#[test]
fn comments_and_declarations_are_passed_over() {
    let xml = "<?xml version=\"1.0\"?><!DOCTYPE rss><!-- x --><item><title>a<!-- b -->c</title></item>";
    let items = parse_rss_items(xml);
    assert_eq!(items.len(), 1);
    assert_eq!(items[0].title, "ac");
}

#[test]
fn a_broken_feed_keeps_the_items_before_the_error() {
    let whole = "<channel><item><title>a</title></item><item><title>b</title></item></channel>";
    let broken = "<channel><item><title>a</title></item><item><title>b</item></channel>";
    assert_eq!(parse_rss_items(whole).len(), 2);
    let items = parse_rss_items(broken);
    assert_eq!(items.len(), 1);
    assert_eq!(items[0].title, "a");
    assert_eq!(parse_rss_items("<item><title>a</title></item><item").len(), 1);
}

#[test]
fn no_items_in_what_is_no_feed() {
    assert!(parse_rss_items("").is_empty());
    assert!(parse_rss_items("plain text").is_empty());
    assert!(parse_rss_items("<html><body></body></html>").is_empty());
    assert!(find_rss_item("plain text", None).is_none());
}

#[test]
fn attributes_are_decoded_with_replacement() {
    let attributes = vec![
        None,
        Some((b"url".to_vec(), vec![b'a', 0xff, b'b'])),
        Some((b"url".to_vec(), b"second".to_vec())),
    ];
    assert_eq!(attr(&attributes, "url").as_deref(), Some("a\u{fffd}b"));
    assert_eq!(attr(&attributes, "type"), None);
}

#[test]
fn character_data_that_is_not_utf8() {
    let mut state = FeedState::new();
    state.apply(&XmlEvent::Start(b"item".to_vec(), Vec::new()));
    state.apply(&XmlEvent::Start(b"title".to_vec(), Vec::new()));
    state.apply(&XmlEvent::Text(vec![b'a', 0xff]));
    state.apply(&XmlEvent::Text(b"b".to_vec()));
    state.apply(&XmlEvent::CData(vec![b'c', 0xff]));
    state.apply(&XmlEvent::End(b"title".to_vec()));
    state.apply(&XmlEvent::Other);
    state.apply(&XmlEvent::Broken);
    assert!(state.items.is_empty());
    state.apply(&XmlEvent::End(b"item".to_vec()));
    assert_eq!(state.items.len(), 1);
    assert_eq!(state.items[0].title, "bc\u{fffd}");
    assert!(state.cur.is_none());
    assert!(!state.in_title);
}

fn feed() -> &'static str {
    r#"<channel>
        <item><title>one</title><enclosure url="https://e/1.mp3?a=b"/></item>
        <item><title>two</title><enclosure url="https://e/2.mp3"/></item>
        <item><title>three</title></item>
    </channel>"#
}

#[test]
fn finds_the_item_with_the_audio_whatever_the_query() {
    let title = |target: Option<&str>| find_rss_item(feed(), target).unwrap().title;
    assert_eq!(title(Some("https://e/2.mp3")), "two");
    assert_eq!(title(Some("https://e/2.mp3?token=1")), "two");
    assert_eq!(title(Some("https://e/1.mp3?c=d")), "one");
}

#[test]
fn falls_back_on_the_first_item() {
    assert_eq!(find_rss_item(feed(), None).unwrap().title, "one");
    assert_eq!(find_rss_item(feed(), Some("https://e/9.mp3")).unwrap().title, "one");
}

#[test]
fn selects_the_first_of_several_matches() {
    let item = |title: &str, url: Option<&str>| RssItem {
        title: title.to_string(),
        enclosure_url: url.map(|u| u.to_string()),
        transcript_url: None,
        transcript_type: None,
    };
    let items = vec![item("a", None), item("b", Some("u?1")), item("c", Some("u?2"))];
    assert_eq!(select_rss_item(items, Some("u")).unwrap().title, "b");
    assert!(select_rss_item(Vec::new(), Some("u")).is_none());
    assert!(select_rss_item(Vec::new(), None).is_none());
}
