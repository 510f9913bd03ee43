//! The answer of the iTunes Lookup API.
use vstd::prelude::*;
use serde_json::Value;
use crate::apple::{AppleIds, AppleIdsView};
use crate::json;
use crate::json::JsonTree;
use crate::text;

verus! {

/// What the lookup tells about the target episode.
#[derive(Debug)]
pub struct EpisodeInfo {
    pub title: String,
    /// Direct audio enclosure URL.
    pub episode_url: Option<String>,
    /// Publisher RSS feed.
    pub feed_url: Option<String>,
}

/// What an [`EpisodeInfo`] holds.
pub struct EpisodeInfoView {
    pub title: Seq<char>,
    pub episode_url: Option<Seq<char>>,
    pub feed_url: Option<Seq<char>>,
}

impl DeepView for EpisodeInfo {
    type V = EpisodeInfoView;

    open spec fn deep_view(&self) -> EpisodeInfoView {
        EpisodeInfoView {
            title: self.title@,
            episode_url: self.episode_url.deep_view(),
            feed_url: self.feed_url.deep_view(),
        }
    }
}

/// One entry of a lookup answer: an episode, or the show it belongs to.
#[derive(Debug)]
pub struct LookupEntry {
    /// Whether the entry carries an `episodeUrl` at all, which makes it an episode.
    pub is_episode: bool,
    pub episode_url: Option<String>,
    pub feed_url: Option<String>,
    pub track_name: Option<String>,
    pub collection_name: Option<String>,
    /// When the episode came out, as a date and time whose text sorts by time.
    pub release_date: Option<String>,
}

/// What a [`LookupEntry`] holds.
pub struct LookupEntryView {
    pub is_episode: bool,
    pub episode_url: Option<Seq<char>>,
    pub feed_url: Option<Seq<char>>,
    pub track_name: Option<Seq<char>>,
    pub collection_name: Option<Seq<char>>,
    pub release_date: Option<Seq<char>>,
}

impl DeepView for LookupEntry {
    type V = LookupEntryView;

    open spec fn deep_view(&self) -> LookupEntryView {
        LookupEntryView {
            is_episode: self.is_episode,
            episode_url: self.episode_url.deep_view(),
            feed_url: self.feed_url.deep_view(),
            track_name: self.track_name.deep_view(),
            collection_name: self.collection_name.deep_view(),
            release_date: self.release_date.deep_view(),
        }
    }
}

// ---------------------------------------------------------------------------
// Reading the answer
// ---------------------------------------------------------------------------

/// The entry that a JSON value stands for.
pub open spec fn entry_of(tree: JsonTree) -> LookupEntryView {
    LookupEntryView {
        is_episode: json::member(tree, "episodeUrl"@) is Some,
        episode_url: json::text_member(tree, "episodeUrl"@),
        feed_url: json::text_member(tree, "feedUrl"@),
        track_name: json::text_member(tree, "trackName"@),
        collection_name: json::text_member(tree, "collectionName"@),
        release_date: json::text_member(tree, "releaseDate"@),
    }
}

/// The entries of an answer: those under `results`, where that is an array.
pub open spec fn entries_of(tree: JsonTree) -> Option<Seq<LookupEntryView>> {
    match json::member(tree, "results"@) {
        Some(JsonTree::List(results)) => Some(results.map_values(|r: JsonTree| entry_of(r))),
        _ => None,
    }
}

fn read_entry(value: &Value) -> (r: LookupEntry)
    ensures
        r.deep_view() == entry_of(json::json_tree(*value)),
{
    LookupEntry {
        is_episode: json::get(value, "episodeUrl").is_some(),
        episode_url: json::get_text(value, "episodeUrl"),
        feed_url: json::get_text(value, "feedUrl"),
        track_name: json::get_text(value, "trackName"),
        collection_name: json::get_text(value, "collectionName"),
        release_date: json::get_text(value, "releaseDate"),
    }
}

/// Reads the entries of an answer.
pub fn read_entries(answer: &Value) -> (r: Option<Vec<LookupEntry>>)
    ensures
        r.deep_view() == entries_of(json::json_tree(*answer)),
{
    let results = match json::get(answer, "results") {
        Some(found) => match json::as_array(found) {
            Some(results) => results,
            None => {
                return None;
            },
        },
        None => {
            return None;
        },
    };
    let ghost trees = results@.map_values(|item: Value| json::json_tree(item));
    let mut entries: Vec<LookupEntry> = Vec::new();
    let mut i: usize = 0;
    while i < results.len()
        invariant
            i <= results@.len(),
            trees == results@.map_values(|item: Value| json::json_tree(item)),
            entries@.len() == i,
            forall|j: int| 0 <= j < i ==> (#[trigger] entries@[j]).deep_view() == entry_of(trees[j]),
        decreases results@.len() - i,
    {
        entries.push(read_entry(&results[i]));
        i = i + 1;
    }
    assert(entries.deep_view() =~= trees.map_values(|r: JsonTree| entry_of(r)));
    Some(entries)
}

// ---------------------------------------------------------------------------
// Choosing the episode
// ---------------------------------------------------------------------------

/// The position of the first episode among the entries, or their number where
/// there is none.
pub open spec fn first_episode(entries: Seq<LookupEntryView>) -> int
    decreases entries.len(),
{
    if entries.len() == 0 || entries[0].is_episode {
        0
    } else {
        1 + first_episode(entries.drop_first())
    }
}

/// Whether a release date is later than another. Any date is later than none.
pub open spec fn is_later(date: Option<Seq<char>>, than: Option<Seq<char>>) -> bool {
    match (date, than) {
        (Some(d), Some(t)) => !text::lex_le(d, t),
        (Some(_), None) => true,
        (None, _) => false,
    }
}

/// The position of the latest of the entries with audio, and of the first of
/// them where several came out at once; `None` where no entry has audio.
pub open spec fn latest_with_audio(entries: Seq<LookupEntryView>) -> Option<int>
    decreases entries.len(),
{
    if entries.len() == 0 {
        None
    } else {
        let before = latest_with_audio(entries.drop_last());
        let last = entries.last();
        if last.episode_url is None {
            before
        } else {
            match before {
                Some(n) if !is_later(last.release_date, entries[n].release_date) => before,
                _ => Some(entries.len() - 1),
            }
        }
    }
}

/// The position of the target episode among the entries, or their number where
/// there is none. Of a show that is the latest episode with audio; where none
/// has audio, and where the episode itself was asked for, it is the first episode.
pub open spec fn target_episode(entries: Seq<LookupEntryView>, of_show: bool) -> int {
    match latest_with_audio(entries) {
        Some(n) if of_show => n,
        _ => first_episode(entries),
    }
}

/// The first feed that an entry states.
pub open spec fn first_feed(entries: Seq<LookupEntryView>) -> Option<Seq<char>>
    decreases entries.len(),
{
    if entries.len() == 0 {
        None
    } else if entries[0].feed_url is Some {
        entries[0].feed_url
    } else {
        first_feed(entries.drop_first())
    }
}

/// `text`, or nothing where there is none.
pub open spec fn or_empty(text: Option<Seq<char>>) -> Seq<char> {
    match text {
        Some(t) => t,
        None => Seq::empty(),
    }
}

/// What the entries of an answer tell about the target episode: its audio and
/// title; without an episode the title is that of the first entry. The feed may
/// stand on any entry. With neither audio nor feed there is nothing to go on with.
pub open spec fn episode_of(entries: Seq<LookupEntryView>, of_show: bool) -> Option<
    EpisodeInfoView,
> {
    let n = target_episode(entries, of_show);
    let info = if n < entries.len() {
        EpisodeInfoView {
            title: or_empty(entries[n].track_name),
            episode_url: entries[n].episode_url,
            feed_url: first_feed(entries),
        }
    } else {
        EpisodeInfoView {
            title: if entries.len() > 0 {
                or_empty(entries[0].collection_name)
            } else {
                Seq::empty()
            },
            episode_url: None,
            feed_url: first_feed(entries),
        }
    };
    if info.episode_url is None && info.feed_url is None {
        None
    } else {
        Some(info)
    }
}

/// What `first_episode` returns: no entry before it is an episode, and it is
/// past the end or the entry there is one.
pub proof fn lemma_first_episode(entries: Seq<LookupEntryView>)
    ensures
        0 <= first_episode(entries) <= entries.len(),
        forall|i: int|
            0 <= i < first_episode(entries) ==> !(#[trigger] entries[i]).is_episode,
        first_episode(entries) < entries.len() ==> entries[first_episode(entries)].is_episode,
    decreases entries.len(),
{
    if entries.len() > 0 && !entries[0].is_episode {
        lemma_first_episode(entries.drop_first());
        assert forall|i: int| 0 <= i < first_episode(entries) implies !(
        #[trigger] entries[i]).is_episode by {
            if i > 0 {
                assert(entries[i] == entries.drop_first()[i - 1]);
            }
        }
    }
}

fn copy_text(text: &Option<String>) -> (r: Option<String>)
    ensures
        r.deep_view() == text.deep_view(),
{
    match text {
        Some(t) => Some(t.clone()),
        None => None,
    }
}

fn copy_or_empty(text: &Option<String>) -> (r: String)
    ensures
        r@ == or_empty(text.deep_view()),
{
    match text {
        Some(t) => t.clone(),
        None => String::new(),
    }
}

fn find_feed(entries: &Vec<LookupEntry>) -> (r: Option<String>)
    ensures
        r.deep_view() == first_feed(entries.deep_view()),
{
    let ghost all = entries.deep_view();
    assert(all.skip(0) =~= all);
    let mut i: usize = 0;
    while i < entries.len()
        invariant
            all == entries.deep_view(),
            i <= entries@.len(),
            first_feed(all) == first_feed(all.skip(i as int)),
        decreases entries@.len() - i,
    {
        proof {
            assert(all.skip(i as int)[0] == entries@[i as int].deep_view());
            assert(all.skip(i as int).drop_first() =~= all.skip(i + 1));
        }
        if entries[i].feed_url.is_some() {
            return copy_text(&entries[i].feed_url);
        }
        i = i + 1;
    }
    None
}

fn find_episode(entries: &Vec<LookupEntry>) -> (r: usize)
    ensures
        r == first_episode(entries.deep_view()),
        r <= entries@.len(),
{
    let ghost all = entries.deep_view();
    assert(all.skip(0) =~= all);
    let mut i: usize = 0;
    while i < entries.len()
        invariant
            all == entries.deep_view(),
            i <= entries@.len(),
            first_episode(all) == i + first_episode(all.skip(i as int)),
        decreases entries@.len() - i,
    {
        proof {
            assert(all.skip(i as int)[0] == entries@[i as int].deep_view());
            assert(all.skip(i as int).drop_first() =~= all.skip(i + 1));
        }
        if entries[i].is_episode {
            return i;
        }
        i = i + 1;
    }
    i
}

/// Tests whether a release date is later than another.
fn later(date: &Option<String>, than: &Option<String>) -> (r: bool)
    ensures
        r == is_later(date.deep_view(), than.deep_view()),
{
    match (date, than) {
        (Some(d), Some(t)) => !text::at_or_before(d.as_str(), t.as_str()),
        (Some(_), None) => true,
        (None, _) => false,
    }
}

fn find_latest(entries: &Vec<LookupEntry>) -> (r: Option<usize>)
    ensures
        match r {
            Some(n) => n < entries@.len() && latest_with_audio(entries.deep_view()) == Some(
                n as int,
            ),
            None => latest_with_audio(entries.deep_view()) is None,
        },
{
    let ghost all = entries.deep_view();
    let mut best: Option<usize> = None;
    let mut i: usize = 0;
    assert(all.take(0) =~= Seq::<LookupEntryView>::empty());
    while i < entries.len()
        invariant
            all == entries.deep_view(),
            i <= entries@.len(),
            match best {
                Some(n) => n < i && latest_with_audio(all.take(i as int)) == Some(n as int),
                None => latest_with_audio(all.take(i as int)) is None,
            },
        decreases entries@.len() - i,
    {
        proof {
            assert(all.take(i + 1).drop_last() =~= all.take(i as int));
            assert(all.take(i + 1).last() == entries@[i as int].deep_view());
        }
        if entries[i].episode_url.is_some() {
            best = match best {
                Some(n) => {
                    assert(all.take(i + 1)[n as int] == entries@[n as int].deep_view());
                    if later(&entries[i].release_date, &entries[n].release_date) {
                        Some(i)
                    } else {
                        Some(n)
                    }
                },
                None => Some(i),
            };
        }
        i = i + 1;
    }
    assert(all.take(i as int) =~= all);
    best
}

/// Picks the target episode out of the entries of an answer: of a show the
/// latest one, and else the first.
pub fn select_episode(entries: &Vec<LookupEntry>, of_show: bool) -> (r: Option<EpisodeInfo>)
    ensures
        r.deep_view() == episode_of(entries.deep_view(), of_show),
{
    let feed_url = find_feed(entries);
    let n: usize = match find_latest(entries) {
        Some(latest) => if of_show {
            latest
        } else {
            find_episode(entries)
        },
        None => find_episode(entries),
    };
    let info = if n < entries.len() {
        assert(entries.deep_view()[n as int] == entries@[n as int].deep_view());
        EpisodeInfo {
            title: copy_or_empty(&entries[n].track_name),
            episode_url: copy_text(&entries[n].episode_url),
            feed_url,
        }
    } else if entries.len() > 0 {
        assert(entries.deep_view()[0] == entries@[0].deep_view());
        EpisodeInfo {
            title: copy_or_empty(&entries[0].collection_name),
            episode_url: None,
            feed_url,
        }
    } else {
        EpisodeInfo { title: String::new(), episode_url: None, feed_url }
    };
    if info.episode_url.is_none() && info.feed_url.is_none() {
        None
    } else {
        Some(info)
    }
}

/// What the body of an answer to a lookup of `ids` tells about the target episode.
pub open spec fn episode_in(body: Seq<u8>, ids: AppleIdsView) -> Option<EpisodeInfoView> {
    match json::json_document(body) {
        Some(tree) => match entries_of(tree) {
            Some(entries) => episode_of(entries, ids.episode_id is None),
            None => None,
        },
        None => None,
    }
}

/// Reads the body of an answer of the iTunes Lookup API to a lookup of `ids`.
pub fn parse_lookup(body: &[u8], ids: &AppleIds) -> (r: Option<EpisodeInfo>)
    ensures
        r.deep_view() == episode_in(body@, ids.deep_view()),
{
    match json::parse(body) {
        Some(answer) => match read_entries(&answer) {
            Some(entries) => select_episode(&entries, ids.episode_id.is_none()),
            None => None,
        },
        None => None,
    }
}

// ---------------------------------------------------------------------------
// Laws
// ---------------------------------------------------------------------------

/// The feed is found on whichever entry states it, and is the first one stated.
pub proof fn lemma_feed_on_any_entry(entries: Seq<LookupEntryView>, k: int)
    requires
        0 <= k < entries.len(),
        entries[k].feed_url is Some,
        forall|i: int| 0 <= i < k ==> (#[trigger] entries[i]).feed_url is None,
    ensures
        first_feed(entries) == entries[k].feed_url,
    decreases entries.len(),
{
    if k > 0 {
        let rest = entries.drop_first();
        assert(entries[0].feed_url is None);
        assert forall|i: int| 0 <= i < k - 1 implies (#[trigger] rest[i]).feed_url is None by {
            assert(rest[i] == entries[i + 1]);
        }
        lemma_feed_on_any_entry(rest, k - 1);
    }
}

/// What `latest_with_audio` returns: an entry with audio that no other one with
/// audio is later than, and that is later than every one with audio before it.
/// There is one where any entry has audio.
pub proof fn lemma_latest_with_audio(entries: Seq<LookupEntryView>)
    ensures
        match latest_with_audio(entries) {
            Some(n) => {
                &&& 0 <= n < entries.len()
                &&& entries[n].episode_url is Some
                &&& forall|i: int|
                    0 <= i < entries.len() && (#[trigger] entries[i]).episode_url is Some
                        ==> !is_later(entries[i].release_date, entries[n].release_date)
                &&& forall|i: int|
                    0 <= i < n && (#[trigger] entries[i]).episode_url is Some ==> is_later(
                        entries[n].release_date,
                        entries[i].release_date,
                    )
            },
            None => forall|i: int|
                0 <= i < entries.len() ==> (#[trigger] entries[i]).episode_url is None,
        },
    decreases entries.len(),
{
    if entries.len() > 0 {
        let init = entries.drop_last();
        let k = entries.len() - 1;
        lemma_latest_with_audio(init);
        assert forall|i: int| 0 <= i < k implies #[trigger] entries[i] == init[i] by {}
        if let Some(n) = latest_with_audio(entries) {
            let chosen = entries[n].release_date;
            assert forall|i: int|
                0 <= i < entries.len() && (#[trigger] entries[i]).episode_url is Some implies !is_later(
                entries[i].release_date,
                chosen,
            ) by {
                lemma_later_is_strict(entries[i].release_date, chosen);
                if i < k && n == k && latest_with_audio(init) is Some {
                    let b = init[latest_with_audio(init)->0].release_date;
                    assert(!is_later(init[i].release_date, b));
                    lemma_later_is_transitive(chosen, b, entries[i].release_date);
                }
            }
            assert forall|i: int|
                0 <= i < n && (#[trigger] entries[i]).episode_url is Some implies is_later(
                chosen,
                entries[i].release_date,
            ) by {
                assert(entries[i] == init[i]);
                if n == k {
                    assert(latest_with_audio(init) is Some);
                    let b = init[latest_with_audio(init)->0].release_date;
                    assert(!is_later(init[i].release_date, b));
                    lemma_later_is_transitive(chosen, b, entries[i].release_date);
                }
            }
        }
    }
}

/// No date is later than itself, and of two dates at most one is later.
proof fn lemma_later_is_strict(a: Option<Seq<char>>, b: Option<Seq<char>>)
    ensures
        !is_later(a, a),
        is_later(a, b) ==> !is_later(b, a),
{
    if a is Some {
        text::lemma_lex_reflexive(a->0);
    }
    if a is Some && b is Some {
        text::lemma_lex_connected(a->0, b->0);
    }
}

/// A date that is later than another is later than what is not later than that.
proof fn lemma_later_is_transitive(
    a: Option<Seq<char>>,
    b: Option<Seq<char>>,
    c: Option<Seq<char>>,
)
    requires
        is_later(a, b),
        !is_later(c, b),
    ensures
        is_later(a, c),
        !is_later(c, a),
{
    if b is Some && c is Some {
        if text::lex_le(a->0, c->0) {
            text::lemma_lex_transitive(a->0, c->0, b->0);
        }
    }
    lemma_later_is_strict(a, c);
}

/// A show leads to its latest episode: where an entry has audio, the audio and
/// the title are those of the latest entry with audio.
pub proof fn lemma_show_leads_to_latest(entries: Seq<LookupEntryView>, n: int)
    requires
        latest_with_audio(entries) == Some(n),
    ensures
        episode_of(entries, true) == Some(
            (EpisodeInfoView {
                title: or_empty(entries[n].track_name),
                episode_url: entries[n].episode_url,
                feed_url: first_feed(entries),
            }),
        ),
{
    lemma_latest_with_audio(entries);
}

/// Where no entry states a release date, the latest episode of a show is the
/// first one with audio.
pub proof fn lemma_first_without_dates(entries: Seq<LookupEntryView>, n: int)
    requires
        0 <= n < entries.len(),
        entries[n].episode_url is Some,
        forall|i: int| 0 <= i < n ==> (#[trigger] entries[i]).episode_url is None,
        forall|i: int| 0 <= i < entries.len() ==> (#[trigger] entries[i]).release_date is None,
    ensures
        latest_with_audio(entries) == Some(n),
{
    lemma_latest_with_audio(entries);
    if let Some(m) = latest_with_audio(entries) {
        assert(entries[m].release_date is None);
        assert(entries[n].episode_url is Some);
    }
}

/// An episode that is found has audio or a feed to go on with.
pub proof fn lemma_found_episode_has_source(entries: Seq<LookupEntryView>, of_show: bool)
    ensures
        episode_of(entries, of_show) matches Some(info) ==> info.episode_url is Some || info.feed_url is Some,
{
}

/// Whether a JSON value is an object that has this key.
pub open spec fn has_key(tree: JsonTree, key: Seq<char>) -> bool {
    tree matches JsonTree::Fields(fields) && fields.dom().contains(key)
}

/// The string that a JSON object has under this key.
pub open spec fn string_under(tree: JsonTree, key: Seq<char>) -> Option<Seq<char>> {
    match tree {
        JsonTree::Fields(fields) => if fields.dom().contains(key) {
            match fields[key] {
                JsonTree::Text(text) => Some(text),
                _ => None,
            }
        } else {
            None
        },
        _ => None,
    }
}

/// Whether the body of an answer is a JSON object with this array under `results`.
pub open spec fn holds_results(body: Seq<u8>, results: Seq<JsonTree>) -> bool {
    json::json_document(body) matches Some(JsonTree::Fields(fields)) && fields.dom().contains(
        "results"@,
    ) && fields["results"@] == JsonTree::List(results)
}

/// Whether a string is the one under this key, and no string stands there where
/// it is empty.
pub open spec fn is_title(title: Seq<char>, tree: JsonTree, key: Seq<char>) -> bool {
    match string_under(tree, key) {
        Some(text) => title == text,
        None => title.len() == 0,
    }
}

/// The entries of an answer are its results, each with what its members hold.
proof fn lemma_entries(body: Seq<u8>, results: Seq<JsonTree>, ids: AppleIdsView) -> (entries: Seq<
    LookupEntryView,
>)
    requires
        holds_results(body, results),
    ensures
        entries.len() == results.len(),
        episode_in(body, ids) == episode_of(entries, ids.episode_id is None),
        forall|i: int|
            0 <= i < results.len() ==> {
                &&& (#[trigger] entries[i]).is_episode == has_key(results[i], "episodeUrl"@)
                &&& entries[i].episode_url == string_under(results[i], "episodeUrl"@)
                &&& entries[i].feed_url == string_under(results[i], "feedUrl"@)
                &&& entries[i].track_name == string_under(results[i], "trackName"@)
                &&& entries[i].collection_name == string_under(results[i], "collectionName"@)
                &&& entries[i].release_date == string_under(results[i], "releaseDate"@)
            },
{
    let entries = results.map_values(|r: JsonTree| entry_of(r));
    assert forall|i: int| 0 <= i < results.len() implies {
        &&& (#[trigger] entries[i]).is_episode == has_key(results[i], "episodeUrl"@)
        &&& entries[i].episode_url == string_under(results[i], "episodeUrl"@)
        &&& entries[i].feed_url == string_under(results[i], "feedUrl"@)
        &&& entries[i].track_name == string_under(results[i], "trackName"@)
        &&& entries[i].collection_name == string_under(results[i], "collectionName"@)
        &&& entries[i].release_date == string_under(results[i], "releaseDate"@)
    } by {
        assert(entries[i] == entry_of(results[i]));
    }
    entries
}

/// The lookup of an episode leads to the first result that has an `episodeUrl`,
/// whatever else that has: the audio is the string there, and the title is the
/// string under `trackName`.
pub proof fn lemma_episode_of_members(
    body: Seq<u8>,
    ids: AppleIdsView,
    results: Seq<JsonTree>,
    n: int,
)
    requires
        holds_results(body, results),
        ids.episode_id is Some,
        0 <= n < results.len(),
        has_key(results[n], "episodeUrl"@),
        forall|i: int| 0 <= i < n ==> !has_key(#[trigger] results[i], "episodeUrl"@),
    ensures
        string_under(results[n], "episodeUrl"@) is Some ==> episode_in(body, ids) is Some,
        episode_in(body, ids) matches Some(info) ==> {
            &&& info.episode_url == string_under(results[n], "episodeUrl"@)
            &&& is_title(info.title, results[n], "trackName"@)
        },
{
    let entries = lemma_entries(body, results, ids);
    lemma_first_episode(entries);
    let m = first_episode(entries);
    assert(entries[n].is_episode);
    if m < n {
        assert(entries[m].is_episode);
        assert(!has_key(results[m], "episodeUrl"@));
    }
    assert(m == n);
}

/// The lookup of a show leads to the result with a string under `episodeUrl` whose
/// `releaseDate` no other such result has a later one than, and the first of those.
pub proof fn lemma_show_of_members(
    body: Seq<u8>,
    ids: AppleIdsView,
    results: Seq<JsonTree>,
    n: int,
)
    requires
        holds_results(body, results),
        ids.episode_id is None,
        0 <= n < results.len(),
        string_under(results[n], "episodeUrl"@) is Some,
        forall|i: int|
            0 <= i < results.len() && string_under(#[trigger] results[i], "episodeUrl"@) is Some
                ==> match (
                string_under(results[i], "releaseDate"@),
                string_under(results[n], "releaseDate"@),
            ) {
                (Some(other), Some(date)) => text::lex_le(other, date) && (i < n ==> other != date),
                (Some(_), None) => false,
                (None, Some(_)) => true,
                (None, None) => i >= n,
            },
    ensures
        episode_in(body, ids) matches Some(info) && {
            &&& info.episode_url == string_under(results[n], "episodeUrl"@)
            &&& is_title(info.title, results[n], "trackName"@)
        },
{
    let entries = lemma_entries(body, results, ids);
    lemma_latest_with_audio(entries);
    assert(entries[n].episode_url is Some);
    if let Some(m) = latest_with_audio(entries) {
        let other = entries[m].release_date;
        let date = entries[n].release_date;
        assert(string_under(results[m], "episodeUrl"@) is Some);
        if other is Some && date is Some {
            if text::lex_le(date->0, other->0) {
                text::lemma_lex_antisymmetric(date->0, other->0);
            }
        }
        if m < n {
            assert(!is_later(date, other));
        }
        if n < m {
            assert(is_later(other, date));
        }
        assert(m == n);
    }
}

/// The feed is the first string that any result has under `feedUrl`, whatever was
/// looked up; with it there is always something to go on with.
pub proof fn lemma_feed_of_members(
    body: Seq<u8>,
    ids: AppleIdsView,
    results: Seq<JsonTree>,
    n: int,
)
    requires
        holds_results(body, results),
        0 <= n < results.len(),
        string_under(results[n], "feedUrl"@) is Some,
        forall|i: int| 0 <= i < n ==> string_under(#[trigger] results[i], "feedUrl"@) is None,
    ensures
        episode_in(body, ids) matches Some(info) && info.feed_url == string_under(
            results[n],
            "feedUrl"@,
        ),
{
    let entries = lemma_entries(body, results, ids);
    assert forall|i: int| 0 <= i < n implies (#[trigger] entries[i]).feed_url is None by {
        assert(string_under(results[i], "feedUrl"@) is None);
    }
    assert(entries[n].feed_url is Some);
    lemma_feed_on_any_entry(entries, n);
}

/// Without a string under `feedUrl` in any result there is no feed.
pub proof fn lemma_no_feed_in_members(body: Seq<u8>, ids: AppleIdsView, results: Seq<JsonTree>)
    requires
        holds_results(body, results),
        forall|i: int|
            0 <= i < results.len() ==> string_under(#[trigger] results[i], "feedUrl"@) is None,
    ensures
        episode_in(body, ids) matches Some(info) ==> info.feed_url is None,
{
    let entries = lemma_entries(body, results, ids);
    assert forall|i: int| 0 <= i < entries.len() implies (#[trigger] entries[i]).feed_url is None by {
        assert(string_under(results[i], "feedUrl"@) is None);
    }
    lemma_no_feed(entries);
}

proof fn lemma_no_feed(entries: Seq<LookupEntryView>)
    requires
        forall|i: int| 0 <= i < entries.len() ==> (#[trigger] entries[i]).feed_url is None,
    ensures
        first_feed(entries) is None,
    decreases entries.len(),
{
    if entries.len() > 0 {
        assert(entries[0].feed_url is None);
        assert forall|i: int| 0 <= i < entries.drop_first().len() implies (
        #[trigger] entries.drop_first()[i]).feed_url is None by {
            assert(entries.drop_first()[i] == entries[i + 1]);
        }
        lemma_no_feed(entries.drop_first());
    }
}

/// Where no result has an `episodeUrl`, there is no audio, and the title is the
/// string that the first result has under `collectionName`.
pub proof fn lemma_no_episode_in_members(body: Seq<u8>, ids: AppleIdsView, results: Seq<JsonTree>)
    requires
        holds_results(body, results),
        forall|i: int| 0 <= i < results.len() ==> !has_key(#[trigger] results[i], "episodeUrl"@),
    ensures
        episode_in(body, ids) matches Some(info) ==> {
            &&& info.episode_url is None
            &&& info.feed_url is Some
            &&& results.len() > 0
            &&& is_title(info.title, results[0], "collectionName"@)
        },
{
    let entries = lemma_entries(body, results, ids);
    lemma_first_episode(entries);
    lemma_latest_with_audio(entries);
    let m = first_episode(entries);
    if m < entries.len() {
        assert(!has_key(results[m], "episodeUrl"@));
    }
    if let Some(n) = latest_with_audio(entries) {
        assert(!has_key(results[n], "episodeUrl"@));
    }
    if entries.len() == 0 {
        lemma_no_feed(entries);
    } else {
        assert(entries[0].collection_name == string_under(results[0], "collectionName"@));
    }
}

/// The lookup of a show none of whose results has a string under `episodeUrl`
/// takes the title of the first that has an `episodeUrl` at all.
pub proof fn lemma_show_without_audio(
    body: Seq<u8>,
    ids: AppleIdsView,
    results: Seq<JsonTree>,
    n: int,
)
    requires
        holds_results(body, results),
        0 <= n < results.len(),
        has_key(results[n], "episodeUrl"@),
        forall|i: int| 0 <= i < n ==> !has_key(#[trigger] results[i], "episodeUrl"@),
        forall|i: int|
            0 <= i < results.len() ==> string_under(#[trigger] results[i], "episodeUrl"@) is None,
    ensures
        episode_in(body, ids) matches Some(info) ==> {
            &&& info.episode_url is None
            &&& is_title(info.title, results[n], "trackName"@)
        },
{
    let entries = lemma_entries(body, results, ids);
    lemma_first_episode(entries);
    lemma_latest_with_audio(entries);
    let m = first_episode(entries);
    assert(entries[n].is_episode);
    if m < n {
        assert(!has_key(results[m], "episodeUrl"@));
    }
    if let Some(k) = latest_with_audio(entries) {
        assert(string_under(results[k], "episodeUrl"@) is None);
    }
}

/// A body that is no JSON object with an array under `results` tells nothing.
pub proof fn lemma_no_results(body: Seq<u8>, ids: AppleIdsView)
    requires
        forall|results: Seq<JsonTree>| !holds_results(body, results),
    ensures
        episode_in(body, ids) is None,
{
    if let Some(JsonTree::Fields(fields)) = json::json_document(body) {
        if fields.dom().contains("results"@) {
            if let JsonTree::List(results) = fields["results"@] {
                assert(holds_results(body, results));
            }
        }
    }
}

} // verus!
