//! Podcast feeds: the items of an RSS document and what each one offers.
use vstd::prelude::*;
use vstd::utf8::*;
use crate::audio;
use crate::text;
use crate::xml_reader;
use crate::xml_reader::{XmlEvent, XmlEventView};

verus! {

/// One `<item>` of a feed: its title, its audio enclosure and the published
/// transcript that was chosen for it.
#[derive(Debug)]
pub struct RssItem {
    pub title: String,
    pub enclosure_url: Option<String>,
    pub transcript_url: Option<String>,
    pub transcript_type: Option<String>,
}

/// What an [`RssItem`] holds.
pub struct RssItemView {
    pub title: Seq<char>,
    pub enclosure_url: Option<Seq<char>>,
    pub transcript_url: Option<Seq<char>>,
    pub transcript_type: Option<Seq<char>>,
}

impl DeepView for RssItem {
    type V = RssItemView;

    open spec fn deep_view(&self) -> RssItemView {
        RssItemView {
            title: self.title@,
            enclosure_url: self.enclosure_url.deep_view(),
            transcript_url: self.transcript_url.deep_view(),
            transcript_type: self.transcript_type.deep_view(),
        }
    }
}

/// An item of which nothing is known yet.
pub open spec fn blank_item() -> RssItemView {
    RssItemView {
        title: Seq::empty(),
        enclosure_url: None,
        transcript_url: None,
        transcript_type: None,
    }
}

/// `item` after an `<enclosure>` with this `url` attribute.
pub open spec fn with_enclosure(item: RssItemView, url: Option<Seq<char>>) -> RssItemView {
    if url is Some {
        RssItemView { enclosure_url: url, ..item }
    } else {
        item
    }
}

/// Whether a transcript type is stated and does not name JSON.
pub open spec fn is_text_type(typ: Option<Seq<char>>) -> bool {
    typ matches Some(t) && !text::occurs(t, "json"@)
}

/// `item` after a `<podcast:transcript>` with these attributes. The first one
/// with a URL is taken; a later one takes its place where its type is a text type.
pub open spec fn with_transcript(
    item: RssItemView,
    url: Option<Seq<char>>,
    typ: Option<Seq<char>>,
) -> RssItemView {
    if url is Some && (item.transcript_url is None || is_text_type(typ)) {
        RssItemView { transcript_url: url, transcript_type: typ, ..item }
    } else {
        item
    }
}

impl Default for RssItem {
    fn default() -> (r: RssItem)
        ensures
            r.deep_view() == blank_item(),
    {
        RssItem {
            title: String::new(),
            enclosure_url: None,
            transcript_url: None,
            transcript_type: None,
        }
    }
}

impl RssItem {
    /// Records the audio enclosure of the item.
    pub fn set_enclosure(&mut self, url: Option<String>)
        ensures
            final(self).deep_view() == with_enclosure(old(self).deep_view(), url.deep_view()),
    {
        if url.is_some() {
            self.enclosure_url = url;
        }
    }

    /// Offers a published transcript to the item, which keeps the better one.
    pub fn offer_transcript(&mut self, url: Option<String>, typ: Option<String>)
        ensures
            final(self).deep_view() == with_transcript(
                old(self).deep_view(),
                url.deep_view(),
                typ.deep_view(),
            ),
    {
        let text_type = match &typ {
            Some(t) => !text::contains(t.as_str(), "json"),
            None => false,
        };
        if url.is_some() && (self.transcript_url.is_none() || text_type) {
            self.transcript_url = url;
            self.transcript_type = typ;
        }
    }
}

/// The value of the first well-formed attribute with this key.
pub open spec fn attribute(
    attributes: Seq<Option<(Seq<u8>, Seq<u8>)>>,
    key: Seq<char>,
) -> Option<Seq<char>>
    decreases attributes.len(),
{
    if attributes.len() == 0 {
        None
    } else {
        match attributes[0] {
            Some((k, value)) if k == encode_utf8(key) => Some(xml_reader::lossy_text(value)),
            _ => attribute(attributes.drop_first(), key),
        }
    }
}

/// Reads an attribute of a tag.
pub fn attr(attributes: &Vec<Option<(Vec<u8>, Vec<u8>)>>, key: &str) -> (r: Option<String>)
    ensures
        r.deep_view() == attribute(attributes.deep_view(), key@),
{
    assert(attributes.deep_view().skip(0) =~= attributes.deep_view());
    let mut i: usize = 0;
    while i < attributes.len()
        invariant
            i <= attributes@.len(),
            attribute(attributes.deep_view(), key@) == attribute(
                attributes.deep_view().skip(i as int),
                key@,
            ),
        decreases attributes@.len() - i,
    {
        let ghost rest = attributes.deep_view().skip(i as int);
        assert(rest[0] == attributes@[i as int].deep_view());
        assert(rest.drop_first() =~= attributes.deep_view().skip(i + 1));
        if let Some((k, v)) = &attributes[i] {
            assert(k.deep_view() =~= k@);
            assert(v.deep_view() =~= v@);
            if text::same_bytes(k.as_slice(), key.as_bytes()) {
                return Some(xml_reader::decode_lossy(v));
            }
        }
        i = i + 1;
    }
    None
}

/// Where the reading of a feed stands.
pub struct FeedState {
    /// The items that are complete, in document order.
    pub items: Vec<RssItem>,
    /// The item that is open.
    pub cur: Option<RssItem>,
    /// Whether a title is open.
    pub in_title: bool,
}

/// What a [`FeedState`] holds.
pub struct FeedView {
    pub items: Seq<RssItemView>,
    pub cur: Option<RssItemView>,
    pub in_title: bool,
}

impl DeepView for FeedState {
    type V = FeedView;

    open spec fn deep_view(&self) -> FeedView {
        FeedView {
            items: self.items.deep_view(),
            cur: self.cur.deep_view(),
            in_title: self.in_title,
        }
    }
}

/// Before the first event.
pub open spec fn feed_start() -> FeedView {
    FeedView { items: Seq::empty(), cur: None, in_title: false }
}

/// Whether a qualified name is `name`.
pub open spec fn named(raw: Seq<u8>, name: Seq<char>) -> bool {
    raw == encode_utf8(name)
}

/// `item` after one of its tags, be it self-closing or not.
pub open spec fn after_tag(
    item: RssItemView,
    name: Seq<u8>,
    attributes: Seq<Option<(Seq<u8>, Seq<u8>)>>,
) -> RssItemView {
    if named(name, "enclosure"@) {
        with_enclosure(item, attribute(attributes, "url"@))
    } else if named(name, "podcast:transcript"@) {
        with_transcript(item, attribute(attributes, "url"@), attribute(attributes, "type"@))
    } else {
        item
    }
}

/// `state` after a tag, which counts where an item is open.
pub open spec fn with_tag(
    state: FeedView,
    name: Seq<u8>,
    attributes: Seq<Option<(Seq<u8>, Seq<u8>)>>,
) -> FeedView {
    match state.cur {
        Some(item) => FeedView { cur: Some(after_tag(item, name, attributes)), ..state },
        None => state,
    }
}

/// `state` with `more` added to the title, where a title of an item is open.
pub open spec fn with_title_text(state: FeedView, more: Seq<char>) -> FeedView {
    match state.cur {
        Some(item) if state.in_title => FeedView {
            cur: Some(RssItemView { title: item.title + more, ..item }),
            ..state
        },
        _ => state,
    }
}

/// `state` after one event.
pub open spec fn feed_step(state: FeedView, event: XmlEventView) -> FeedView {
    match event {
        XmlEventView::Start(name, attributes) => if named(name, "item"@) {
            FeedView { cur: Some(blank_item()), ..state }
        } else if named(name, "title"@) && state.cur is Some {
            FeedView { in_title: true, ..state }
        } else {
            with_tag(state, name, attributes)
        },
        XmlEventView::Empty(name, attributes) => with_tag(state, name, attributes),
        XmlEventView::Text(raw) => with_title_text(
            state,
            match xml_reader::xml_unescaped(raw) {
                Some(text) => text,
                None => Seq::empty(),
            },
        ),
        XmlEventView::CData(raw) => with_title_text(state, xml_reader::lossy_text(raw)),
        XmlEventView::End(name) => if named(name, "title"@) {
            FeedView { in_title: false, ..state }
        } else if named(name, "item"@) {
            match state.cur {
                Some(item) => FeedView {
                    items: state.items.push(RssItemView { title: text::trimmed(item.title), ..item }),
                    cur: None,
                    ..state
                },
                None => state,
            }
        } else {
            state
        },
        XmlEventView::Other => state,
        XmlEventView::Broken => state,
    }
}

/// `state` after a run of events.
pub open spec fn feed_run(state: FeedView, events: Seq<XmlEventView>) -> FeedView
    decreases events.len(),
{
    if events.len() == 0 {
        state
    } else {
        feed_run(feed_step(state, events[0]), events.drop_first())
    }
}

/// The items of a document with these events.
pub open spec fn rss_items(events: Seq<XmlEventView>) -> Seq<RssItemView> {
    feed_run(feed_start(), events).items
}

impl FeedState {
    /// A reading that has seen nothing yet.
    pub fn new() -> (r: FeedState)
        ensures
            r.deep_view() == feed_start(),
    {
        let r = FeedState { items: Vec::new(), cur: None, in_title: false };
        assert(r.items.deep_view() =~= Seq::<RssItemView>::empty());
        r
    }

    /// Adds text to the title of the open item.
    fn add_title_text(&mut self, more: &str)
        ensures
            final(self).deep_view() == with_title_text(old(self).deep_view(), more@),
    {
        if self.in_title {
            if let Some(item) = &mut self.cur {
                item.title.append(more);
            }
        }
    }

    /// Takes in a tag.
    fn add_tag(&mut self, name: &Vec<u8>, attributes: &Vec<Option<(Vec<u8>, Vec<u8>)>>)
        ensures
            final(self).deep_view() == with_tag(
                old(self).deep_view(),
                name.deep_view(),
                attributes.deep_view(),
            ),
    {
        assert(name.deep_view() =~= name@);
        if let Some(item) = &mut self.cur {
            if text::same_bytes(name.as_slice(), "enclosure".as_bytes()) {
                item.set_enclosure(attr(attributes, "url"));
            } else if text::same_bytes(name.as_slice(), "podcast:transcript".as_bytes()) {
                item.offer_transcript(attr(attributes, "url"), attr(attributes, "type"));
            }
        }
    }

    /// Takes in one event.
    pub fn apply(&mut self, event: &XmlEvent)
        ensures
            final(self).deep_view() == feed_step(old(self).deep_view(), event.deep_view()),
    {
        match event {
            XmlEvent::Start(name, attributes) => {
                assert(name.deep_view() =~= name@);
                if text::same_bytes(name.as_slice(), "item".as_bytes()) {
                    self.cur = Some(RssItem::default());
                } else if text::same_bytes(name.as_slice(), "title".as_bytes()) && self.cur.is_some() {
                    self.in_title = true;
                } else {
                    self.add_tag(name, attributes);
                }
            },
            XmlEvent::Empty(name, attributes) => self.add_tag(name, attributes),
            XmlEvent::Text(raw) => {
                assert(raw.deep_view() =~= raw@);
                match xml_reader::unescape(raw) {
                    Some(text) => self.add_title_text(text.as_str()),
                    None => self.add_title_text(String::new().as_str()),
                }
            },
            XmlEvent::CData(raw) => {
                assert(raw.deep_view() =~= raw@);
                let text = xml_reader::decode_lossy(raw);
                self.add_title_text(text.as_str());
            },
            XmlEvent::End(name) => {
                assert(name.deep_view() =~= name@);
                if text::same_bytes(name.as_slice(), "title".as_bytes()) {
                    self.in_title = false;
                } else if text::same_bytes(name.as_slice(), "item".as_bytes()) {
                    if let Some(mut item) = self.cur.take() {
                        let title = text::trim(item.title.as_str()).to_owned();
                        item.title = title;
                        let ghost before = self.items.deep_view();
                        let ghost done = item.deep_view();
                        self.items.push(item);
                        assert(self.items.deep_view() =~= before.push(done));
                    }
                }
            },
            XmlEvent::Other => {},
            XmlEvent::Broken => {},
        }
    }
}

proof fn lemma_feed_run_broken(state: FeedView, events: Seq<XmlEventView>)
    requires
        events.len() == 1,
        events[0] is Broken,
    ensures
        feed_run(state, events) == state,
{
    assert(feed_run(state, events.drop_first()) == state);
}

/// Whether a document with these events breaks off with an error.
pub open spec fn breaks_off(events: Seq<XmlEventView>) -> bool {
    events.len() > 0 && events.last() is Broken
}

/// Tests whether a feed breaks off with an error.
pub fn is_broken(xml: &str) -> (r: bool)
    ensures
        r == breaks_off(xml_reader::xml_events(xml@)),
{
    let mut reader = xml_reader::open_document(xml);
    let mut broken: bool = false;
    loop
        invariant_except_break
            !broken,
            xml_reader::pending_events(reader).len() > 0 ==> breaks_off(
                xml_reader::pending_events(reader),
            ) == breaks_off(xml_reader::xml_events(xml@)),
            xml_reader::pending_events(reader).len() == 0 ==> !breaks_off(
                xml_reader::xml_events(xml@),
            ),
        ensures
            broken == breaks_off(xml_reader::xml_events(xml@)),
        decreases xml_reader::pending_events(reader).len(),
    {
        match xml_reader::next_event(&mut reader) {
            Some(XmlEvent::Broken) => {
                broken = true;
                break;
            },
            Some(_) => {},
            None => {
                break;
            },
        }
    }
    broken
}

/// Whether a text and what follows it are read one after the other: the text is
/// whole and leaves neither an item nor a title open, and markup follows it.
pub open spec fn can_be_joined(a: Seq<char>, b: Seq<char>) -> bool {
    &&& xml_reader::is_whole(xml_reader::xml_events(a))
    &&& ends_closed(xml_reader::xml_events(a))
    &&& text::begins(b, "<"@)
}

/// Reads the items of a feed: title, enclosure and `<podcast:transcript>`. What
/// follows an error in the document is not read. The items of two texts that are
/// joined are those of the first and then those of the second.
pub fn parse_rss_items(xml: &str) -> (r: Vec<RssItem>)
    ensures
        r.deep_view() == rss_items(xml_reader::xml_events(xml@)),
        forall|a: Seq<char>, b: Seq<char>|
            xml@ == #[trigger] (a + b) && can_be_joined(a, b) ==> r.deep_view() == rss_items(
                xml_reader::xml_events(a),
            ) + rss_items(xml_reader::xml_events(b)),
{
    let mut reader = xml_reader::open_document(xml);
    proof {
        assert forall|a: Seq<char>, b: Seq<char>|
            xml@ == #[trigger] (a + b) && can_be_joined(a, b) implies rss_items(
            xml_reader::xml_events(xml@),
        ) == rss_items(xml_reader::xml_events(a)) + rss_items(xml_reader::xml_events(b)) by {
            lemma_joined_feeds(xml_reader::xml_events(a), xml_reader::xml_events(b));
        }
    }
    let mut state = FeedState::new();
    loop
        invariant_except_break
            feed_run(state.deep_view(), xml_reader::pending_events(reader)) == feed_run(
                feed_start(),
                xml_reader::xml_events(xml@),
            ),
        ensures
            state.deep_view() == feed_run(feed_start(), xml_reader::xml_events(xml@)),
        decreases xml_reader::pending_events(reader).len(),
    {
        let ghost pending = xml_reader::pending_events(reader);
        match xml_reader::next_event(&mut reader) {
            Some(XmlEvent::Broken) => {
                proof {
                    lemma_feed_run_broken(state.deep_view(), pending);
                }
                break;
            },
            Some(event) => {
                state.apply(&event);
            },
            None => {
                break;
            },
        }
    }
    state.items
}

// ---------------------------------------------------------------------------
// Choosing an item
// ---------------------------------------------------------------------------

/// Whether the enclosure of `item` is the audio at `target`, whatever the
/// queries of the two URLs are.
pub open spec fn has_audio(item: RssItemView, target: Seq<char>) -> bool {
    item.enclosure_url matches Some(url) && audio::base_of(url) == audio::base_of(target)
}

/// The position of the first item with the audio at `target`, or the number of
/// items where there is none.
pub open spec fn first_with_audio(items: Seq<RssItemView>, target: Seq<char>) -> int
    decreases items.len(),
{
    if items.len() == 0 || has_audio(items[0], target) {
        0
    } else {
        1 + first_with_audio(items.drop_first(), target)
    }
}

/// The item for an episode: the first one with its audio; without a target, or
/// without a match, the first of all.
pub open spec fn chosen_item(
    items: Seq<RssItemView>,
    target: Option<Seq<char>>,
) -> Option<RssItemView> {
    if items.len() == 0 {
        None
    } else {
        match target {
            Some(audio) if first_with_audio(items, audio) < items.len() => Some(
                items[first_with_audio(items, audio)],
            ),
            _ => Some(items[0]),
        }
    }
}

/// What `first_with_audio` returns: no item before it has the audio, and it is
/// past the end or the item there has it.
pub proof fn lemma_first_with_audio(items: Seq<RssItemView>, target: Seq<char>)
    ensures
        0 <= first_with_audio(items, target) <= items.len(),
        forall|i: int|
            0 <= i < first_with_audio(items, target) ==> !has_audio(#[trigger] items[i], target),
        first_with_audio(items, target) < items.len() ==> has_audio(
            items[first_with_audio(items, target)],
            target,
        ),
    decreases items.len(),
{
    if items.len() > 0 && !has_audio(items[0], target) {
        lemma_first_with_audio(items.drop_first(), target);
        assert forall|i: int| 0 <= i < first_with_audio(items, target) implies !has_audio(
            #[trigger] items[i],
            target,
        ) by {
            if i > 0 {
                assert(items[i] == items.drop_first()[i - 1]);
            }
        }
    }
}

/// Tests whether the enclosure of an item is the audio at `target`.
fn plays(item: &RssItem, target: &str) -> (r: bool)
    ensures
        r == has_audio(item.deep_view(), target@),
{
    match &item.enclosure_url {
        Some(url) => text::same_text(
            audio::strip_query(url.as_str()),
            audio::strip_query(target),
        ),
        None => false,
    }
}

/// Chooses the item for an episode among those of a feed.
pub fn select_rss_item(items: Vec<RssItem>, target_audio: Option<&str>) -> (r: Option<RssItem>)
    ensures
        r.deep_view() == chosen_item(items.deep_view(), target_audio.deep_view()),
{
    let ghost all = items.deep_view();
    let mut left = items;
    if left.len() == 0 {
        return None;
    }
    if let Some(target) = target_audio {
        assert(all.skip(0) =~= all);
        let mut i: usize = 0;
        while i < left.len()
            invariant
                all == items.deep_view(),
                target_audio == Some(target),
                left.deep_view() == all,
                i <= left@.len(),
                first_with_audio(all, target@) == i + first_with_audio(all.skip(i as int), target@),
            decreases left@.len() - i,
        {
            proof {
                assert(all.skip(i as int)[0] == left@[i as int].deep_view());
                assert(all.skip(i as int).drop_first() =~= all.skip(i + 1));
            }
            if plays(&left[i], target) {
                return Some(left.swap_remove(i));
            }
            i = i + 1;
        }
    }
    Some(left.swap_remove(0))
}

/// Reads a feed and chooses the item for an episode.
pub fn find_rss_item(xml: &str, target_audio: Option<&str>) -> (r: Option<RssItem>)
    ensures
        r.deep_view() == chosen_item(
            rss_items(xml_reader::xml_events(xml@)),
            target_audio.deep_view(),
        ),
{
    select_rss_item(parse_rss_items(xml), target_audio)
}

// ---------------------------------------------------------------------------
// Laws
// ---------------------------------------------------------------------------

/// A run of events is the run of its two parts, one after the other.
pub proof fn lemma_feed_run_concat(state: FeedView, a: Seq<XmlEventView>, b: Seq<XmlEventView>)
    ensures
        feed_run(state, a + b) == feed_run(feed_run(state, a), b),
    decreases a.len(),
{
    if a.len() == 0 {
        assert(a + b =~= b);
    } else {
        assert((a + b).drop_first() =~= a.drop_first() + b);
        lemma_feed_run_concat(feed_step(state, a[0]), a.drop_first(), b);
    }
}

/// A run of events only ever adds items after those that are there.
proof fn lemma_items_only_grow(state: FeedView, events: Seq<XmlEventView>)
    ensures
        state.items.is_prefix_of(feed_run(state, events).items),
    decreases events.len(),
{
    if events.len() > 0 {
        let next = feed_step(state, events[0]);
        assert(state.items.is_prefix_of(next.items));
        lemma_items_only_grow(next, events.drop_first());
        let all = feed_run(state, events).items;
        assert(next.items =~= all.subrange(0, next.items.len() as int));
        assert(state.items =~= all.subrange(0, state.items.len() as int));
    }
}

/// A document that breaks off keeps the items that were complete: the items of
/// its first events are the first items of the whole.
pub proof fn lemma_broken_feed_keeps_items(a: Seq<XmlEventView>, b: Seq<XmlEventView>)
    ensures
        rss_items(a).is_prefix_of(rss_items(a + b)),
{
    lemma_feed_run_concat(feed_start(), a, b);
    lemma_items_only_grow(feed_run(feed_start(), a), b);
}

/// Items that are complete play no part in the reading of what follows.
proof fn lemma_earlier_items_do_not_matter(
    earlier: Seq<RssItemView>,
    state: FeedView,
    events: Seq<XmlEventView>,
)
    ensures
        feed_run(FeedView { items: earlier + state.items, ..state }, events) == (FeedView {
            items: earlier + feed_run(state, events).items,
            ..feed_run(state, events)
        }),
    decreases events.len(),
{
    if events.len() > 0 {
        let with = FeedView { items: earlier + state.items, ..state };
        let next = feed_step(state, events[0]);
        assert(feed_step(with, events[0]).items =~= earlier + next.items);
        assert(feed_step(with, events[0]) == FeedView { items: earlier + next.items, ..next });
        lemma_earlier_items_do_not_matter(earlier, next, events.drop_first());
    }
}

/// Whether a run of events ends with neither an item nor a title open.
pub open spec fn ends_closed(events: Seq<XmlEventView>) -> bool {
    let end = feed_run(feed_start(), events);
    end.cur is None && !end.in_title
}

/// The items of two feeds that are joined are those of the first and then those
/// of the second: nothing of one item reaches another.
pub proof fn lemma_joined_feeds(a: Seq<XmlEventView>, b: Seq<XmlEventView>)
    requires
        ends_closed(a),
    ensures
        rss_items(a + b) == rss_items(a) + rss_items(b),
        ends_closed(b) ==> ends_closed(a + b),
{
    let end = feed_run(feed_start(), a);
    lemma_feed_run_concat(feed_start(), a, b);
    lemma_earlier_items_do_not_matter(end.items, feed_start(), b);
    assert(end.items + feed_start().items =~= end.items);
}

/// Whether events are those of one complete item, with no item inside it: it
/// opens, it closes, and what stands between leaves no title open.
pub open spec fn is_complete_item(events: Seq<XmlEventView>) -> bool {
    &&& events.len() >= 2
    &&& events[0] matches XmlEventView::Start(name, _) && named(name, "item"@)
    &&& events.last() matches XmlEventView::End(name) && named(name, "item"@)
    &&& forall|i: int| 0 < i < events.len() - 1 ==> stays_in_item(#[trigger] events[i])
    &&& titles_closed(events)
}

/// Whether every title that a run of events opens is closed in it.
pub open spec fn titles_closed(events: Seq<XmlEventView>) -> bool
    decreases events.len(),
{
    if events.len() == 0 {
        true
    } else {
        match events.last() {
            XmlEventView::Start(name, _) if named(name, "title"@) => false,
            XmlEventView::End(name) if named(name, "title"@) => true,
            _ => titles_closed(events.drop_last()),
        }
    }
}

proof fn lemma_titles_closed(state: FeedView, events: Seq<XmlEventView>)
    requires
        !state.in_title,
        titles_closed(events),
    ensures
        !feed_run(state, events).in_title,
    decreases events.len(),
{
    if events.len() > 0 {
        let init = events.drop_last();
        let last = events.last();
        lemma_feed_run_concat(state, init, seq![last]);
        lemma_feed_run_one(feed_run(state, init), last);
        assert(init + seq![last] =~= events);
        if titles_closed(init) {
            lemma_titles_closed(state, init);
        }
    }
}

proof fn lemma_item_stays_open(state: FeedView, events: Seq<XmlEventView>)
    requires
        state.cur is Some,
        forall|i: int| 0 <= i < events.len() ==> stays_in_item(#[trigger] events[i]),
    ensures
        feed_run(state, events).cur is Some,
        feed_run(state, events).items == state.items,
    decreases events.len(),
{
    if events.len() > 0 {
        assert(stays_in_item(events[0]));
        let next = feed_step(state, events[0]);
        assert forall|i: int| 0 <= i < events.drop_first().len() implies stays_in_item(
            #[trigger] events.drop_first()[i],
        ) by {
            assert(events.drop_first()[i] == events[i + 1]);
        }
        lemma_item_stays_open(next, events.drop_first());
    }
}

/// A complete item is read as one item, and leaves neither an item nor a title
/// open.
pub proof fn lemma_complete_item(events: Seq<XmlEventView>)
    requires
        is_complete_item(events),
    ensures
        ends_closed(events),
        rss_items(events).len() == 1,
{
    let first = events[0];
    let last = events.last();
    let middle = events.subrange(1, events.len() - 1);
    let opened = feed_step(feed_start(), first);
    assert(events =~= seq![first] + (middle + seq![last]));
    lemma_feed_run_concat(feed_start(), seq![first], middle + seq![last]);
    lemma_feed_run_one(feed_start(), first);
    lemma_feed_run_concat(opened, middle, seq![last]);
    assert forall|i: int| 0 <= i < middle.len() implies stays_in_item(#[trigger] middle[i]) by {
        assert(middle[i] == events[i + 1]);
    }
    lemma_item_stays_open(opened, middle);
    lemma_feed_run_one(feed_run(opened, middle), last);
    lemma_names_differ();
    lemma_titles_closed(feed_start(), events);
}

/// Complete items one after the other are read one by one, each as it is read
/// when it stands alone.
pub proof fn lemma_complete_items(runs: Seq<Seq<XmlEventView>>)
    requires
        forall|i: int| 0 <= i < runs.len() ==> is_complete_item(#[trigger] runs[i]),
    ensures
        ends_closed(runs.flatten()),
        rss_items(runs.flatten()).len() == runs.len(),
        forall|i: int|
            0 <= i < runs.len() ==> rss_items(runs.flatten())[i] == rss_items(
                #[trigger] runs[i],
            )[0],
    decreases runs.len(),
{
    if runs.len() > 0 {
        let rest = runs.drop_first();
        assert(is_complete_item(runs[0]));
        assert forall|i: int| 0 <= i < rest.len() implies is_complete_item(#[trigger] rest[i]) by {
            assert(rest[i] == runs[i + 1]);
        }
        lemma_complete_item(runs[0]);
        lemma_complete_items(rest);
        lemma_joined_feeds(runs[0], rest.flatten());
        assert(runs.flatten() == runs[0] + rest.flatten());
        assert forall|i: int| 0 <= i < runs.len() implies rss_items(runs.flatten())[i]
            == rss_items(#[trigger] runs[i])[0] by {
            if i > 0 {
                assert(rest[i - 1] == runs[i]);
            }
        }
    } else {
        assert(runs.flatten() =~= Seq::<XmlEventView>::empty());
    }
}

/// Whether a transcript type is only there beside a transcript.
pub open spec fn coherent(item: RssItemView) -> bool {
    item.transcript_type is Some ==> item.transcript_url is Some
}

/// What every event keeps: complete items have trimmed titles, and no item has
/// a transcript type without a transcript.
pub open spec fn feed_invariant(state: FeedView) -> bool {
    &&& forall|i: int|
        0 <= i < state.items.len() ==> coherent(#[trigger] state.items[i])
            && state.items[i].title == text::trimmed(state.items[i].title)
    &&& state.cur matches Some(item) ==> coherent(item)
}

/// Every event keeps the invariant of a feed.
pub proof fn lemma_feed_step_keeps_invariant(state: FeedView, event: XmlEventView)
    requires
        feed_invariant(state),
    ensures
        feed_invariant(feed_step(state, event)),
{
    if let Some(item) = state.cur {
        text::lemma_trimmed_ends(item.title);
    }
}

proof fn lemma_feed_run_keeps_invariant(state: FeedView, events: Seq<XmlEventView>)
    requires
        feed_invariant(state),
    ensures
        feed_invariant(feed_run(state, events)),
    decreases events.len(),
{
    if events.len() > 0 {
        lemma_feed_step_keeps_invariant(state, events[0]);
        lemma_feed_run_keeps_invariant(feed_step(state, events[0]), events.drop_first());
    }
}

/// Whatever a document holds, the titles of its items are trimmed, and no item
/// has a transcript type without a transcript.
pub proof fn lemma_items_are_well_formed(events: Seq<XmlEventView>)
    ensures
        forall|i: int|
            0 <= i < rss_items(events).len() ==> coherent(#[trigger] rss_items(events)[i])
                && rss_items(events)[i].title == text::trimmed(rss_items(events)[i].title),
{
    lemma_feed_run_keeps_invariant(feed_start(), events);
}

/// `item` after a run of offered transcripts, each a URL and a type.
pub open spec fn after_offers(
    item: RssItemView,
    offers: Seq<(Option<Seq<char>>, Option<Seq<char>>)>,
) -> RssItemView
    decreases offers.len(),
{
    if offers.len() == 0 {
        item
    } else {
        let (url, typ) = offers.last();
        with_transcript(after_offers(item, offers.drop_last()), url, typ)
    }
}

/// Whether an offer has a URL and a text type.
pub open spec fn offers_text(offer: (Option<Seq<char>>, Option<Seq<char>>)) -> bool {
    offer.0 is Some && is_text_type(offer.1)
}

/// The transcripts that a run of events offers.
pub open spec fn offers_in(events: Seq<XmlEventView>) -> Seq<(Option<Seq<char>>, Option<Seq<char>>)>
    decreases events.len(),
{
    if events.len() == 0 {
        Seq::empty()
    } else {
        match events.last() {
            XmlEventView::Start(name, attributes) if named(name, "podcast:transcript"@) => offers_in(
                events.drop_last(),
            ).push((attribute(attributes, "url"@), attribute(attributes, "type"@))),
            XmlEventView::Empty(name, attributes) if named(name, "podcast:transcript"@) => offers_in(
                events.drop_last(),
            ).push((attribute(attributes, "url"@), attribute(attributes, "type"@))),
            _ => offers_in(events.drop_last()),
        }
    }
}

/// Whether an event neither opens nor closes an item.
pub open spec fn stays_in_item(event: XmlEventView) -> bool {
    match event {
        XmlEventView::Start(name, _) => !named(name, "item"@),
        XmlEventView::End(name) => !named(name, "item"@),
        _ => true,
    }
}

/// The transcript of an open item is the one that it keeps of those that are
/// offered in it, whatever else stands between them.
pub proof fn lemma_item_keeps_offers(
    state: FeedView,
    item: RssItemView,
    events: Seq<XmlEventView>,
)
    requires
        state.cur == Some(item),
        forall|i: int| 0 <= i < events.len() ==> stays_in_item(#[trigger] events[i]),
    ensures
        feed_run(state, events).cur matches Some(read) && {
            let kept = after_offers(item, offers_in(events));
            read.transcript_url == kept.transcript_url && read.transcript_type
                == kept.transcript_type
        },
    decreases events.len(),
{
    if events.len() > 0 {
        let init = events.drop_last();
        let last = events[events.len() - 1];
        assert forall|i: int| 0 <= i < init.len() implies stays_in_item(#[trigger] init[i]) by {
            assert(init[i] == events[i]);
        }
        lemma_item_keeps_offers(state, item, init);
        lemma_feed_run_concat(state, init, seq![last]);
        assert(init + seq![last] =~= events);
        lemma_feed_run_one(feed_run(state, init), last);
        lemma_names_differ();
        assert(stays_in_item(last));
        let offers = offers_in(events);
        if offers.len() > offers_in(init).len() {
            assert(offers.drop_last() =~= offers_in(init));
        }
    }
}

/// A run of one event is that event.
pub proof fn lemma_feed_run_one(state: FeedView, event: XmlEventView)
    ensures
        feed_run(state, seq![event]) == feed_step(state, event),
{
    assert(seq![event].drop_first() =~= Seq::<XmlEventView>::empty());
    assert(feed_run(feed_step(state, event), Seq::empty()) == feed_step(state, event));
}

/// Of several transcripts an item keeps the last one of a text type that has a
/// URL. So text is preferred over JSON in whatever order the two are listed.
pub proof fn lemma_text_transcript_preferred(
    item: RssItemView,
    offers: Seq<(Option<Seq<char>>, Option<Seq<char>>)>,
    k: int,
)
    requires
        0 <= k < offers.len(),
        offers_text(offers[k]),
        forall|j: int| k < j < offers.len() ==> !offers_text(#[trigger] offers[j]),
    ensures
        after_offers(item, offers).transcript_url == offers[k].0,
        after_offers(item, offers).transcript_type == offers[k].1,
    decreases offers.len(),
{
    if k < offers.len() - 1 {
        let init = offers.drop_last();
        assert forall|j: int| k < j < init.len() implies !offers_text(#[trigger] init[j]) by {
            assert(init[j] == offers[j]);
        }
        lemma_text_transcript_preferred(item, init, k);
        assert(!offers_text(offers[offers.len() - 1]));
    }
}

/// Where no transcript of a text type has a URL, an item that has none yet
/// keeps the first one that has a URL, and is left as it was where none has.
pub proof fn lemma_first_transcript_otherwise(
    item: RssItemView,
    offers: Seq<(Option<Seq<char>>, Option<Seq<char>>)>,
    k: int,
)
    requires
        item.transcript_url is None,
        0 <= k <= offers.len(),
        forall|j: int| 0 <= j < offers.len() ==> !offers_text(#[trigger] offers[j]),
        forall|j: int| 0 <= j < k ==> (#[trigger] offers[j]).0 is None,
        k < offers.len() ==> offers[k].0 is Some,
    ensures
        k < offers.len() ==> after_offers(item, offers).transcript_url == offers[k].0
            && after_offers(item, offers).transcript_type == offers[k].1,
        k == offers.len() ==> after_offers(item, offers) == item,
    decreases offers.len(),
{
    if offers.len() > 0 {
        let init = offers.drop_last();
        let last = offers[offers.len() - 1];
        assert(!offers_text(last));
        assert forall|j: int| 0 <= j < init.len() implies !offers_text(#[trigger] init[j]) by {
            assert(init[j] == offers[j]);
        }
        assert forall|j: int| 0 <= j < k && j < init.len() implies (#[trigger] init[j]).0 is None by {
            assert(init[j] == offers[j]);
        }
        if k < offers.len() {
            lemma_first_transcript_otherwise(item, init, k);
        } else {
            lemma_first_transcript_otherwise(item, init, k - 1);
        }
    }
}

/// An element that is written with an opening and a closing tag counts like one
/// that is written with a self-closing tag, whatever text it holds.
pub proof fn lemma_spelling_does_not_matter(
    state: FeedView,
    name: Seq<u8>,
    attributes: Seq<Option<(Seq<u8>, Seq<u8>)>>,
    content: Seq<u8>,
)
    requires
        named(name, "enclosure"@) || named(name, "podcast:transcript"@),
        !state.in_title,
    ensures
        feed_run(
            state,
            seq![
                XmlEventView::Start(name, attributes),
                XmlEventView::Text(content),
                XmlEventView::End(name),
            ],
        ) == feed_step(state, XmlEventView::Empty(name, attributes)),
        feed_run(
            state,
            seq![XmlEventView::Start(name, attributes), XmlEventView::End(name)],
        ) == feed_step(state, XmlEventView::Empty(name, attributes)),
{
    lemma_names_differ();
    let start = XmlEventView::Start(name, attributes);
    let text = XmlEventView::Text(content);
    let end = XmlEventView::End(name);
    let next = feed_step(state, start);
    assert(seq![start, text, end] =~= seq![start] + (seq![text] + seq![end]));
    assert(seq![start, end] =~= seq![start] + seq![end]);
    lemma_feed_run_concat(state, seq![start], seq![text] + seq![end]);
    lemma_feed_run_concat(next, seq![text], seq![end]);
    lemma_feed_run_concat(state, seq![start], seq![end]);
    lemma_feed_run_one(state, start);
    lemma_feed_run_one(next, text);
    lemma_feed_run_one(next, end);
}

/// The events of an item with a title, an enclosure and a transcript.
pub open spec fn item_events(
    title: Seq<u8>,
    enclosure: Seq<Option<(Seq<u8>, Seq<u8>)>>,
    transcript: Seq<Option<(Seq<u8>, Seq<u8>)>>,
) -> Seq<XmlEventView> {
    seq![
        XmlEventView::Start(encode_utf8("item"@), Seq::empty()),
        XmlEventView::Start(encode_utf8("title"@), Seq::empty()),
        XmlEventView::Text(title),
        XmlEventView::End(encode_utf8("title"@)),
        XmlEventView::Empty(encode_utf8("enclosure"@), enclosure),
        XmlEventView::Empty(encode_utf8("podcast:transcript"@), transcript),
        XmlEventView::End(encode_utf8("item"@)),
    ]
}

proof fn lemma_names_differ()
    ensures
        encode_utf8("item"@) != encode_utf8("title"@),
        encode_utf8("enclosure"@) != encode_utf8("podcast:transcript"@),
        encode_utf8("title"@) != encode_utf8("podcast:transcript"@),
        encode_utf8("title"@) != encode_utf8("enclosure"@),
        encode_utf8("item"@) != encode_utf8("enclosure"@),
        encode_utf8("item"@) != encode_utf8("podcast:transcript"@),
{
    reveal_strlit("item");
    reveal_strlit("title");
    reveal_strlit("enclosure");
    reveal_strlit("podcast:transcript");
    encode_utf8_decode_utf8("item"@);
    encode_utf8_decode_utf8("title"@);
    encode_utf8_decode_utf8("enclosure"@);
    encode_utf8_decode_utf8("podcast:transcript"@);
}

/// An item is read back from its events, and added after those before it: its
/// title trimmed, its enclosure, and its transcript where that has a URL.
pub proof fn lemma_item_read_back(
    state: FeedView,
    title: Seq<u8>,
    enclosure: Seq<Option<(Seq<u8>, Seq<u8>)>>,
    transcript: Seq<Option<(Seq<u8>, Seq<u8>)>>,
)
    requires
        xml_reader::xml_unescaped(title) is Some,
    ensures
        feed_run(state, item_events(title, enclosure, transcript)) == (FeedView {
            items: state.items.push(
                RssItemView {
                    title: text::trimmed(xml_reader::xml_unescaped(title)->0),
                    enclosure_url: attribute(enclosure, "url"@),
                    transcript_url: attribute(transcript, "url"@),
                    transcript_type: if attribute(transcript, "url"@) is Some {
                        attribute(transcript, "type"@)
                    } else {
                        None
                    },
                },
            ),
            cur: None,
            in_title: false,
        }),
{
    lemma_names_differ();
    let e0 = item_events(title, enclosure, transcript);
    let e1 = e0.drop_first();
    let e2 = e1.drop_first();
    let e3 = e2.drop_first();
    let e4 = e3.drop_first();
    let e5 = e4.drop_first();
    let e6 = e5.drop_first();
    let s1 = feed_step(state, e0[0]);
    let s2 = feed_step(s1, e1[0]);
    let s3 = feed_step(s2, e2[0]);
    let s4 = feed_step(s3, e3[0]);
    let s5 = feed_step(s4, e4[0]);
    let s6 = feed_step(s5, e5[0]);
    let s7 = feed_step(s6, e6[0]);
    assert(Seq::<char>::empty() + xml_reader::xml_unescaped(title)->0
        =~= xml_reader::xml_unescaped(title)->0);
    assert(e6.drop_first().len() == 0);
    assert(feed_run(s7, e6.drop_first()) == s7);
    assert(feed_run(s6, e6) == s7);
    assert(feed_run(s5, e5) == s7);
    assert(feed_run(s4, e4) == s7);
    assert(feed_run(s3, e3) == s7);
    assert(feed_run(s2, e2) == s7);
    assert(feed_run(s1, e1) == s7);
}

/// The queries of the two URLs do not matter in the choice of an item.
pub proof fn lemma_query_does_not_matter(
    items: Seq<RssItemView>,
    target: Seq<char>,
    other: Seq<char>,
)
    requires
        audio::base_of(target) == audio::base_of(other),
    ensures
        chosen_item(items, Some(target)) == chosen_item(items, Some(other)),
{
    lemma_same_first(items, target, other);
}

proof fn lemma_same_first(items: Seq<RssItemView>, target: Seq<char>, other: Seq<char>)
    requires
        audio::base_of(target) == audio::base_of(other),
    ensures
        first_with_audio(items, target) == first_with_audio(items, other),
    decreases items.len(),
{
    if items.len() > 0 {
        lemma_same_first(items.drop_first(), target, other);
    }
}

/// An attribute is the value of the first well-formed one with its key, wherever
/// that stands; without one there is none.
pub proof fn lemma_attribute(
    before: Seq<Option<(Seq<u8>, Seq<u8>)>>,
    key: Seq<char>,
    value: Seq<u8>,
    after: Seq<Option<(Seq<u8>, Seq<u8>)>>,
)
    requires
        forall|i: int|
            0 <= i < before.len() ==> ((#[trigger] before[i]) matches Some((k, _)) ==> k
                != encode_utf8(key)),
    ensures
        attribute(before, key) is None,
        attribute(before + seq![Some((encode_utf8(key), value))] + after, key) == Some(
            xml_reader::lossy_text(value),
        ),
    decreases before.len(),
{
    let whole = before + seq![Some((encode_utf8(key), value))] + after;
    if before.len() > 0 {
        assert(whole[0] == before[0]);
        assert(whole.drop_first() =~= before.drop_first() + seq![Some((encode_utf8(key), value))]
            + after);
        assert forall|i: int| 0 <= i < before.drop_first().len() implies ((
        #[trigger] before.drop_first()[i]) matches Some((k, _)) ==> k != encode_utf8(key)) by {
            assert(before.drop_first()[i] == before[i + 1]);
        }
        lemma_attribute(before.drop_first(), key, value, after);
    } else {
        assert(whole[0] == Some((encode_utf8(key), value)));
    }
}

/// Whether an event is a tag with this name and these attributes, in either
/// spelling.
pub open spec fn is_tag(
    event: XmlEventView,
    name: Seq<char>,
    attributes: Seq<Option<(Seq<u8>, Seq<u8>)>>,
) -> bool {
    event == XmlEventView::Start(encode_utf8(name), attributes) || event == XmlEventView::Empty(
        encode_utf8(name),
        attributes,
    )
}

/// Whether a transcript type is stated and has no `json` in it.
pub open spec fn is_stated_without_json(typ: Option<Seq<char>>) -> bool {
    typ matches Some(t) && !text::is_part("json"@, t)
}

/// What an offered transcript does to an item: one without a URL does nothing.
/// One with a URL is taken where there is none yet, and always where its type is
/// stated and has no `json` in it. Nothing else of the item changes.
pub proof fn lemma_offer(item: RssItemView, url: Option<Seq<char>>, typ: Option<Seq<char>>)
    ensures
        ({
            let after = with_transcript(item, url, typ);
            let taken = url is Some && (item.transcript_url is None || is_stated_without_json(typ));
            &&& taken ==> after.transcript_url == url && after.transcript_type == typ
            &&& !taken ==> after.transcript_url == item.transcript_url && after.transcript_type
                == item.transcript_type
            &&& after.title == item.title
            &&& after.enclosure_url == item.enclosure_url
        }),
{
    if let Some(t) = typ {
        text::lemma_occurs(t, "json"@);
    }
}

/// A `<podcast:transcript>` in an item, in either spelling, offers the transcript
/// under its `url` and `type`; one whose type is stated and has no `json` in it
/// takes the place of any other.
pub proof fn lemma_transcript_tag(
    state: FeedView,
    item: RssItemView,
    event: XmlEventView,
    attributes: Seq<Option<(Seq<u8>, Seq<u8>)>>,
)
    requires
        state.cur == Some(item),
        is_tag(event, "podcast:transcript"@, attributes),
    ensures
        ({
            let next = feed_step(state, event);
            let url = attribute(attributes, "url"@);
            let typ = attribute(attributes, "type"@);
            let taken = url is Some && (item.transcript_url is None || is_stated_without_json(typ));
            &&& next.items == state.items
            &&& next.in_title == state.in_title
            &&& next.cur matches Some(read) && {
                &&& taken ==> read.transcript_url == url && read.transcript_type == typ
                &&& !taken ==> read.transcript_url == item.transcript_url && read.transcript_type
                    == item.transcript_type
                &&& read.title == item.title
                &&& read.enclosure_url == item.enclosure_url
            }
        }),
{
    lemma_names_differ();
    lemma_offer(item, attribute(attributes, "url"@), attribute(attributes, "type"@));
}

/// An `<enclosure>` in an item, in either spelling, sets the audio of the item to
/// its `url`, where it has one, and changes nothing else.
pub proof fn lemma_enclosure_tag(
    state: FeedView,
    item: RssItemView,
    event: XmlEventView,
    attributes: Seq<Option<(Seq<u8>, Seq<u8>)>>,
)
    requires
        state.cur == Some(item),
        is_tag(event, "enclosure"@, attributes),
    ensures
        ({
            let next = feed_step(state, event);
            let url = attribute(attributes, "url"@);
            &&& next.items == state.items
            &&& next.in_title == state.in_title
            &&& next.cur matches Some(read) && {
                &&& read.enclosure_url == if url is Some {
                    url
                } else {
                    item.enclosure_url
                }
                &&& read.title == item.title
                &&& read.transcript_url == item.transcript_url
                &&& read.transcript_type == item.transcript_type
            }
        }),
{
    lemma_names_differ();
}

/// Whether an event offers a transcript with a URL and a stated type that has no
/// `json` in it.
pub open spec fn offers_other_than_json(event: XmlEventView) -> bool {
    exists|attributes: Seq<Option<(Seq<u8>, Seq<u8>)>>|
        #[trigger] is_tag(event, "podcast:transcript"@, attributes) && attribute(
            attributes,
            "url"@,
        ) is Some && is_stated_without_json(attribute(attributes, "type"@))
}

/// A transcript that an item has stays as long as no other one is offered whose
/// type is stated and has no `json` in it, whatever else the item holds.
pub proof fn lemma_transcript_stays(
    state: FeedView,
    item: RssItemView,
    events: Seq<XmlEventView>,
)
    requires
        state.cur == Some(item),
        item.transcript_url is Some,
        forall|i: int|
            0 <= i < events.len() ==> stays_in_item(#[trigger] events[i])
                && !offers_other_than_json(events[i]),
    ensures
        feed_run(state, events).cur matches Some(read) && read.transcript_url == item.transcript_url
            && read.transcript_type == item.transcript_type,
    decreases events.len(),
{
    if events.len() > 0 {
        let event = events[0];
        let next = feed_step(state, event);
        assert(stays_in_item(event) && !offers_other_than_json(event));
        match event {
            XmlEventView::Start(name, attributes) => {
                lemma_tag_keeps_transcript(state, item, event, name, attributes);
            },
            XmlEventView::Empty(name, attributes) => {
                lemma_tag_keeps_transcript(state, item, event, name, attributes);
            },
            _ => {},
        }
        assert(next.cur is Some);
        let read = next.cur->0;
        assert forall|i: int| 0 <= i < events.drop_first().len() implies stays_in_item(
            #[trigger] events.drop_first()[i],
        ) && !offers_other_than_json(events.drop_first()[i]) by {
            assert(events.drop_first()[i] == events[i + 1]);
        }
        lemma_transcript_stays(next, read, events.drop_first());
    }
}

proof fn lemma_tag_keeps_transcript(
    state: FeedView,
    item: RssItemView,
    event: XmlEventView,
    name: Seq<u8>,
    attributes: Seq<Option<(Seq<u8>, Seq<u8>)>>,
)
    requires
        state.cur == Some(item),
        item.transcript_url is Some,
        event == XmlEventView::Start(name, attributes) || event == XmlEventView::Empty(
            name,
            attributes,
        ),
        stays_in_item(event),
        !offers_other_than_json(event),
    ensures
        feed_step(state, event).cur matches Some(read) && read.transcript_url == item.transcript_url
            && read.transcript_type == item.transcript_type,
{
    lemma_names_differ();
    if name == encode_utf8("podcast:transcript"@) {
        assert(is_tag(event, "podcast:transcript"@, attributes));
        lemma_transcript_tag(state, item, event, attributes);
    }
}

/// The last transcript in an item whose type is stated and has no `json` in it is
/// the one that the item keeps, whatever is offered before and after it.
pub proof fn lemma_other_than_json_wins(
    state: FeedView,
    before: Seq<XmlEventView>,
    event: XmlEventView,
    attributes: Seq<Option<(Seq<u8>, Seq<u8>)>>,
    after: Seq<XmlEventView>,
)
    requires
        state.cur is Some,
        forall|i: int| 0 <= i < before.len() ==> stays_in_item(#[trigger] before[i]),
        is_tag(event, "podcast:transcript"@, attributes),
        attribute(attributes, "url"@) is Some,
        is_stated_without_json(attribute(attributes, "type"@)),
        forall|i: int|
            0 <= i < after.len() ==> stays_in_item(#[trigger] after[i]) && !offers_other_than_json(
                after[i],
            ),
    ensures
        feed_run(state, before + seq![event] + after).cur matches Some(read) && read.transcript_url
            == attribute(attributes, "url"@) && read.transcript_type == attribute(
            attributes,
            "type"@,
        ),
{
    lemma_item_stays_open(state, before);
    let opened = feed_run(state, before);
    let item = opened.cur->0;
    lemma_transcript_tag(opened, item, event, attributes);
    let next = feed_step(opened, event);
    lemma_feed_run_concat(state, before + seq![event], after);
    lemma_feed_run_concat(state, before, seq![event]);
    lemma_feed_run_one(opened, event);
    lemma_transcript_stays(next, next.cur->0, after);
}

/// An `<item>` opens an item that holds nothing yet; its end adds the item, with
/// its title trimmed and all else as it is, after those before it. A `<title>` in
/// an item opens the title, and its end closes it.
pub proof fn lemma_item_and_title_tags(
    state: FeedView,
    attributes: Seq<Option<(Seq<u8>, Seq<u8>)>>,
)
    ensures
        ({
            let opened = feed_step(state, XmlEventView::Start(encode_utf8("item"@), attributes));
            &&& opened.items == state.items && opened.in_title == state.in_title
            &&& opened.cur matches Some(item) && item.title.len() == 0 && item.enclosure_url is None
                && item.transcript_url is None && item.transcript_type is None
        }),
        ({
            let closed = feed_step(state, XmlEventView::End(encode_utf8("item"@)));
            &&& closed.in_title == state.in_title && closed.cur is None
            &&& match state.cur {
                None => closed.items == state.items,
                Some(item) => closed.items == state.items.push(
                    RssItemView {
                        title: text::trimmed(item.title),
                        enclosure_url: item.enclosure_url,
                        transcript_url: item.transcript_url,
                        transcript_type: item.transcript_type,
                    },
                ),
            }
        }),
        ({
            let opened = feed_step(state, XmlEventView::Start(encode_utf8("title"@), attributes));
            &&& opened.items == state.items && opened.cur == state.cur
            &&& opened.in_title == (state.in_title || state.cur is Some)
        }),
        feed_step(state, XmlEventView::End(encode_utf8("title"@))) == (FeedView {
            items: state.items,
            cur: state.cur,
            in_title: false,
        }),
        rss_items(Seq::empty()) == Seq::<RssItemView>::empty(),
{
    lemma_names_differ();
}

/// Text counts where a title of an item is open: it is added at the end of the
/// title, with its entities resolved where it is character data, and with nothing
/// added where they cannot be. Elsewhere it counts for nothing.
pub proof fn lemma_title_text(state: FeedView, raw: Seq<u8>)
    ensures
        ({
            let text = feed_step(state, XmlEventView::Text(raw));
            let data = feed_step(state, XmlEventView::CData(raw));
            &&& text.items == state.items && text.in_title == state.in_title
            &&& data.items == state.items && data.in_title == state.in_title
            &&& match state.cur {
                Some(item) => if state.in_title {
                    &&& text.cur matches Some(read) && read.title == item.title
                        + match xml_reader::xml_unescaped(raw) {
                        Some(more) => more,
                        None => Seq::empty(),
                    } && same_but_title(read, item)
                    &&& data.cur matches Some(read) && read.title == item.title
                        + xml_reader::lossy_text(raw) && same_but_title(read, item)
                } else {
                    text.cur == state.cur && data.cur == state.cur
                },
                None => text.cur is None && data.cur is None,
            }
        }),
{
}

/// Whether two items differ in their titles at most.
pub open spec fn same_but_title(a: RssItemView, b: RssItemView) -> bool {
    a.enclosure_url == b.enclosure_url && a.transcript_url == b.transcript_url && a.transcript_type
        == b.transcript_type
}

/// No other event changes anything: tags with other names, tags outside of an
/// item, comments and declarations, and an error.
pub proof fn lemma_other_events(
    state: FeedView,
    name: Seq<u8>,
    attributes: Seq<Option<(Seq<u8>, Seq<u8>)>>,
)
    ensures
        name != encode_utf8("enclosure"@) && name != encode_utf8("podcast:transcript"@)
            ==> feed_step(state, XmlEventView::Empty(name, attributes)) == state,
        state.cur is None ==> feed_step(state, XmlEventView::Empty(name, attributes)) == state,
        name != encode_utf8("enclosure"@) && name != encode_utf8("podcast:transcript"@) && name
            != encode_utf8("item"@) && name != encode_utf8("title"@) ==> feed_step(
            state,
            XmlEventView::Start(name, attributes),
        ) == state,
        state.cur is None && name != encode_utf8("item"@) ==> feed_step(
            state,
            XmlEventView::Start(name, attributes),
        ) == state,
        name != encode_utf8("item"@) && name != encode_utf8("title"@) ==> feed_step(
            state,
            XmlEventView::End(name),
        ) == state,
        feed_step(state, XmlEventView::Other) == state,
        feed_step(state, XmlEventView::Broken) == state,
{
}

/// Whether a URL has this address: it is the address, or the address and then a
/// question mark and whatever follows.
pub open spec fn has_address(url: Seq<char>, address: Seq<char>) -> bool {
    url == address || (url.len() > address.len() && url.take(address.len() as int) == address
        && url[address.len() as int] == '?')
}

proof fn lemma_base_is_address(url: Seq<char>, address: Seq<char>)
    requires
        !address.contains('?'),
    ensures
        has_address(url, address) <==> audio::base_of(url) == address,
{
    let n = address.len() as int;
    text::lemma_first_index_is_first(url, '?');
    let m = text::first_index(url, '?');
    if has_address(url, address) {
        assert forall|i: int| 0 <= i < n implies url[i] != '?' by {
            assert(url.take(n)[i] == url[i]);
            assert(address.contains(address[i]));
            assert(url.take(url.len() as int) =~= url);
        }
        text::lemma_first_index(url, '?', n);
        assert(url.take(n) =~= address);
    }
    if audio::base_of(url) == address {
        assert(url.take(m) == address);
        assert(m == n);
        if m == url.len() {
            assert(url.take(m) =~= url);
        }
    }
}

/// The item for an episode is the first whose enclosure has the address of the
/// audio: the two URLs agree on every character before their first question marks.
pub proof fn lemma_item_with_address(
    items: Seq<RssItemView>,
    n: int,
    address: Seq<char>,
    target: Seq<char>,
)
    requires
        !address.contains('?'),
        has_address(target, address),
        0 <= n < items.len(),
        items[n].enclosure_url matches Some(url) && has_address(url, address),
        forall|i: int|
            0 <= i < n ==> ((#[trigger] items[i]).enclosure_url matches Some(url) ==> !has_address(
                url,
                address,
            )),
    ensures
        chosen_item(items, Some(target)) == Some(items[n]),
{
    lemma_base_is_address(target, address);
    lemma_first_with_audio(items, target);
    let m = first_with_audio(items, target);
    if let Some(url) = items[n].enclosure_url {
        lemma_base_is_address(url, address);
    }
    assert(has_audio(items[n], target));
    assert(m <= n);
    if m < n {
        assert(has_audio(items[m], target));
        if let Some(url) = items[m].enclosure_url {
            lemma_base_is_address(url, address);
        }
    }
}

/// Where no enclosure has the address of the audio, the item is the first of all;
/// without items there is none.
pub proof fn lemma_first_item_otherwise(
    items: Seq<RssItemView>,
    address: Seq<char>,
    target: Seq<char>,
)
    requires
        !address.contains('?'),
        has_address(target, address),
        forall|i: int|
            0 <= i < items.len() ==> ((#[trigger] items[i]).enclosure_url matches Some(url)
                ==> !has_address(url, address)),
    ensures
        items.len() > 0 ==> chosen_item(items, Some(target)) == Some(items[0]),
        items.len() == 0 ==> chosen_item(items, Some(target)) is None,
{
    lemma_base_is_address(target, address);
    lemma_first_with_audio(items, target);
    let m = first_with_audio(items, target);
    if m < items.len() {
        assert(has_audio(items[m], target));
        if let Some(url) = items[m].enclosure_url {
            lemma_base_is_address(url, address);
        }
    }
}

/// Without audio to look for, the item is the first of all.
pub proof fn lemma_first_item_without_audio(items: Seq<RssItemView>)
    ensures
        items.len() > 0 ==> chosen_item(items, None) == Some(items[0]),
        items.len() == 0 ==> chosen_item(items, None) is None,
{
}

/// A feed breaks off where an error is its last event, and only there.
pub proof fn lemma_breaks_off(events: Seq<XmlEventView>, event: XmlEventView)
    ensures
        breaks_off(events.push(event)) <==> event == XmlEventView::Broken,
        !breaks_off(Seq::empty()),
{
}

} // verus!
