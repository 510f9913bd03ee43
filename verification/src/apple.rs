//! Apple Podcasts links, and the lookup request they lead to.
use vstd::prelude::*;
use crate::patterns;
use crate::text;

verus! {

/// Identifiers extracted from an Apple Podcasts URL.
#[derive(Debug, PartialEq)]
pub struct AppleIds {
    pub collection_id: String,
    pub episode_id: Option<String>,
}

/// What an [`AppleIds`] holds.
pub struct AppleIdsView {
    pub collection_id: Seq<char>,
    pub episode_id: Option<Seq<char>>,
}

impl DeepView for AppleIds {
    type V = AppleIdsView;

    open spec fn deep_view(&self) -> AppleIdsView {
        AppleIdsView {
            collection_id: self.collection_id@,
            episode_id: self.episode_id.deep_view(),
        }
    }
}

/// Finds an Apple Podcasts link anywhere in a message.
pub fn find_apple_link(message: &str) -> (r: Option<String>)
    ensures
        r.deep_view() == patterns::first_link(message@),
{
    patterns::regex_find("https?://podcasts\\.apple\\.com/\\S+", message)
}

/// What follows the scheme of a URL, and the two slashes after it; all of a URL
/// that is written without.
pub open spec fn after_scheme(url: Seq<char>) -> Seq<char> {
    let n = text::first_index(url, '/');
    let scheme = url.take(n);
    if text::begins(url.skip(n), "//"@) && (scheme.len() == 0 || text::ends(scheme, ":"@))
        && !text::occurs(scheme, "?"@) && !text::occurs(scheme, "#"@) {
        url.skip(n + 2)
    } else {
        url
    }
}

/// The part of a URL that names its host, without what leads to it and what
/// follows it.
pub open spec fn authority_of(url: Seq<char>) -> Seq<char> {
    text::before_first(
        text::before_first(text::before_first(after_scheme(url), '/'), '?'),
        '#',
    )
}

/// The host of a URL, without a user before it and a port after it.
pub open spec fn host_of(url: Seq<char>) -> Seq<char> {
    text::trimmed(text::before_first(text::after_last(authority_of(url), '@'), ':'))
}

/// Whether the host of a URL is that of Apple Podcasts, in whatever case it is
/// written, with a scheme or without.
pub open spec fn is_apple_url(url: Seq<char>) -> bool {
    text::lowered(host_of(url)) == "podcasts.apple.com"@
}

/// Cuts off the scheme of a URL.
fn cut_scheme<'a>(url: &'a str) -> (r: &'a str)
    ensures
        r@ == after_scheme(url@),
{
    proof {
        text::lemma_first_index_is_first(url@, '/');
        reveal_strlit("/");
        reveal_strlit("//");
    }
    let ghost n = text::first_index(url@, '/');
    match text::split_once(url, '/') {
        Some((scheme, rest)) => {
            proof {
                text::lemma_first_index_is_first(rest@, '/');
                assert(url@.skip(n)[0] == '/');
                if text::begins(rest@, "/"@) {
                    assert(rest@.subrange(0, 1)[0] == '/');
                    assert(url@.skip(n).subrange(0, 2) =~= "//"@);
                }
                if text::begins(url@.skip(n), "//"@) {
                    assert(url@.skip(n).subrange(0, 2)[1] == '/');
                    assert(rest@.subrange(0, 1) =~= "/"@);
                }
            }
            if text::starts_with(rest, "/") && (scheme.is_empty() || text::ends_with(scheme, ":"))
                && !text::contains(scheme, "?") && !text::contains(scheme, "#") {
                proof {
                    assert(rest@[0] == '/') by {
                        assert(rest@.subrange(0, 1)[0] == '/');
                    }
                    text::lemma_first_index(rest@, '/', 0);
                    assert(rest@.skip(1) =~= url@.skip(n + 2));
                }
                match text::split_once(rest, '/') {
                    Some((_, after)) => after,
                    None => rest,
                }
            } else {
                url
            }
        },
        None => url,
    }
}

/// Tests whether the host of a URL is that of Apple Podcasts.
fn has_apple_host(url: &str) -> (r: bool)
    ensures
        r == is_apple_url(url@),
{
    let rest = cut_scheme(url);
    let authority = text::head_of(text::head_of(text::head_of(rest, '/'), '?'), '#');
    let host = text::trim(text::head_of(text::tail_of(authority, '@'), ':'));
    text::lowers_to(host, "podcasts.apple.com")
}

proof fn lemma_dark_run_prefix(s: Seq<char>)
    ensures
        patterns::dark_run(s).len() <= s.len(),
        s.take(patterns::dark_run(s).len() as int) == patterns::dark_run(s),
        patterns::dark_run(s).len() > 0 ==> !text::is_white_space(patterns::dark_run(s)[0]),
    decreases s.len(),
{
    if s.len() > 0 && !text::is_white_space(s[0]) {
        let rest = s.drop_first();
        lemma_dark_run_prefix(rest);
        let n = patterns::dark_run(rest).len() as int;
        assert(s.take(n + 1) =~= seq![s[0]] + rest.take(n));
    } else {
        assert(s.take(0) =~= Seq::<char>::empty());
    }
}

/// A link begins with a scheme and host, and goes on with a visible character.
proof fn lemma_first_link_shape(s: Seq<char>)
    requires
        patterns::first_link(s) is Some,
    ensures
        ({
            let link = patterns::first_link(s)->0;
            let head = patterns::link_head(link);
            &&& head is Some
            &&& link.len() > head->0.len()
            &&& !text::is_white_space(link[head->0.len() as int])
        }),
    decreases s.len(),
{
    if patterns::link_prefix(s) is Some {
        let head = patterns::link_head(s)->0;
        let run = patterns::dark_run(s.skip(head.len() as int));
        let link = head + run;
        lemma_dark_run_prefix(s.skip(head.len() as int));
        assert(link.subrange(0, head.len() as int) =~= head);
        reveal_strlit("https://podcasts.apple.com/");
        reveal_strlit("http://podcasts.apple.com/");
        if head == "http://podcasts.apple.com/"@ {
            if text::begins(link, "https://podcasts.apple.com/"@) {
                assert(link.subrange(0, 27)[4] == 's');
                assert(link[4] == ':');
            }
        }
        assert(patterns::link_head(link) == Some(head));
        assert(link[head.len() as int] == run[0]);
    } else {
        lemma_first_link_shape(s.drop_first());
    }
}

/// The identifiers in an Apple Podcasts URL: `id{collection}` and optionally
/// `?i={episode}`.
pub open spec fn apple_ids(url: Seq<char>) -> Option<AppleIdsView> {
    match patterns::regex_group("/id(\\d+)"@, url) {
        Some(id) if is_apple_url(url) => Some(
            AppleIdsView {
                collection_id: id,
                episode_id: patterns::regex_group("[?&]i=(\\d+)"@, url),
            },
        ),
        _ => None,
    }
}

/// The same, where the identifiers are written in ASCII digits.
pub open spec fn plain_apple_ids(url: Seq<char>) -> Option<AppleIdsView> {
    match patterns::collection_digits(url) {
        Some(id) if is_apple_url(url) => Some(
            AppleIdsView { collection_id: id, episode_id: patterns::episode_digits(url) },
        ),
        _ => None,
    }
}

/// Whether a URL ends in `?i=` and digits, and has no query before that.
pub open spec fn appends_episode(url: Seq<char>) -> bool {
    let query = patterns::query_of(url);
    &&& !text::before_first(url, '?').contains('&')
    &&& text::begins(query, "?i="@)
    &&& query.len() > 3
    &&& text::all_digits(query.skip(3))
}

/// Identifiers with the episode replaced.
pub open spec fn with_episode(ids: Option<AppleIdsView>, episode: Seq<char>) -> Option<
    AppleIdsView,
> {
    match ids {
        Some(ids) => Some(AppleIdsView { episode_id: Some(episode), ..ids }),
        None => None,
    }
}

/// Extracts `id{collectionId}` and optional `?i={episodeId}` from an Apple URL.
/// A URL that is not Apple's has none.
pub fn parse_apple_url(url: &str) -> (r: Option<AppleIds>)
    ensures
        r.deep_view() == apple_ids(url@),
        patterns::plain_identifiers(url@) ==> r.deep_view() == plain_apple_ids(url@),
        appends_episode(url@) ==> r.deep_view() == with_episode(
            apple_ids(text::before_first(url@, '?')),
            patterns::query_of(url@).skip(3),
        ),
        !url@.contains('?') && !url@.contains('&') ==> (r matches Some(ids) ==> ids.episode_id is None),
        r matches Some(ids) ==> {
            &&& patterns::is_identifier(ids.collection_id@)
            &&& ids.episode_id matches Some(id) ==> patterns::is_identifier(id@)
        },
{
    proof {
        if appends_episode(url@) {
            lemma_appended_query(url@);
        }
        if !url@.contains('?') && !url@.contains('&') {
            lemma_no_query_no_episode(url@);
        }
    }
    let is_apple = has_apple_host(url);
    let collection = patterns::regex_first_group("/id(\\d+)", url);
    let episode = patterns::regex_first_group("[?&]i=(\\d+)", url);
    match collection {
        Some(collection_id) => if is_apple {
            Some(AppleIds { collection_id, episode_id: episode })
        } else {
            None
        },
        None => None,
    }
}

/// The identifier that is looked up: that of the episode where there is one.
pub open spec fn lookup_id(ids: AppleIdsView) -> Seq<char> {
    match ids.episode_id {
        Some(id) => id,
        None => ids.collection_id,
    }
}

/// The address of the iTunes Lookup request for an episode or a show.
pub open spec fn lookup_request(ids: AppleIdsView) -> Seq<char> {
    "https://itunes.apple.com/lookup?id="@ + lookup_id(ids)
        + "&entity=podcastEpisode&limit=200"@
}

/// Writes the address of the iTunes Lookup request.
pub fn lookup_url(ids: &AppleIds) -> (r: String)
    ensures
        r@ == lookup_request(ids.deep_view()),
{
    let mut r = String::new();
    r.append("https://itunes.apple.com/lookup?id=");
    match &ids.episode_id {
        Some(id) => r.append(id.as_str()),
        None => r.append(ids.collection_id.as_str()),
    }
    r.append("&entity=podcastEpisode&limit=200");
    assert(r@ =~= lookup_request(ids.deep_view()));
    r
}

// ---------------------------------------------------------------------------
// Laws
// ---------------------------------------------------------------------------

/// A URL that is not Apple's has no identifiers, whatever it holds.
pub proof fn lemma_other_urls_rejected(url: Seq<char>)
    requires
        !is_apple_url(url),
    ensures
        apple_ids(url) is None,
        plain_apple_ids(url) is None,
{
}

/// A URL in ASCII has no digits but ASCII digits.
pub proof fn lemma_ascii_is_plain(url: Seq<char>)
    requires
        forall|i: int| 0 <= i < url.len() ==> #[trigger] url[i] < '\u{80}',
    ensures
        patterns::plain_identifiers(url),
{
    assert forall|i: int|
        0 <= i <= url.len() && (patterns::collection_marker(#[trigger] url.skip(i))
            || patterns::episode_marker(url.skip(i))) implies patterns::digits_end_plainly(
        url.skip(i).skip(3),
    ) by {
        reveal_strlit("/id");
        reveal_strlit("?i=");
        reveal_strlit("&i=");
        let rest = url.skip(i).skip(3);
        lemma_digit_run_within(rest);
        let n = text::digit_run(rest).len() as int;
        if n < rest.len() {
            assert(rest[n] == url[i + 3 + n]);
        }
    }
}

/// A URL without a query names no episode.
proof fn lemma_no_query_no_episode(url: Seq<char>)
    requires
        !url.contains('?'),
        !url.contains('&'),
    ensures
        patterns::plain_episode(url),
        patterns::episode_digits(url) is None,
{
    assert forall|i: int| 0 <= i <= url.len() implies !patterns::episode_marker(
        #[trigger] url.skip(i),
    ) by {
        reveal_strlit("?i=");
        reveal_strlit("&i=");
        let rest = url.skip(i);
        if patterns::episode_marker(rest) {
            assert(rest.subrange(0, 3)[0] == url[i]);
        }
    }
    let none = Seq::<char>::empty();
    assert(url + none =~= url);
    assert forall|i: int| 0 <= i < url.len() implies #[trigger] url[i] != '?' && url[i] != '&' by {}
    lemma_skip_to_query(url, none);
}

/// Where a URL ends in `?i=` and digits, those are its episode; and what stands
/// before is an Apple URL where the whole is.
proof fn lemma_appended_query(url: Seq<char>)
    requires
        appends_episode(url),
    ensures
        patterns::plain_episode(url),
        patterns::episode_digits(url) == Some(patterns::query_of(url).skip(3)),
        !patterns::query_of(url).contains('/'),
        is_apple_url(url) == is_apple_url(text::before_first(url, '?')),
{
    reveal_strlit("?i=");
    reveal_strlit("&i=");
    let n = text::first_index(url, '?');
    text::lemma_first_index_is_first(url, '?');
    let path = text::before_first(url, '?');
    let query = patterns::query_of(url);
    let digits = query.skip(3);
    let none = Seq::<char>::empty();
    assert(url =~= path + query);
    assert(query.subrange(0, 3)[0] == '?' && query.subrange(0, 3)[1] == 'i' && query.subrange(0, 3)[2]
        == '=');
    assert(query[0] == '?' && query[1] == 'i' && query[2] == '=');
    assert forall|i: int| 3 <= i < query.len() implies text::is_digit(#[trigger] query[i]) by {
        assert(query[i] == digits[i - 3]);
        assert(text::is_digit(digits[i - 3]));
    }
    text::lemma_digit_run(digits, none);
    assert(digits + none =~= digits);
    assert forall|i: int| 0 <= i < path.len() implies #[trigger] path[i] != '?' && path[i] != '&' by {
        assert(path[i] == url[i]);
        assert(path.contains(path[i]));
    }
    lemma_skip_to_query(path, query);
    assert forall|i: int|
        0 <= i <= url.len() && patterns::episode_marker(
            #[trigger] url.skip(i),
        ) implies patterns::digits_end_plainly(url.skip(i).skip(3)) by {
        assert(url.skip(i).subrange(0, 3)[0] == url[i]);
        if i < n {
            assert(url[i] == path[i]);
        } else {
            assert(url[i] == query[i - n]);
            assert(i == n);
            assert(url.skip(i).skip(3) =~= digits);
        }
    }
    lemma_query_keeps_host(path, query);
}

/// What stands before the first `c` of a text that goes on with `more`.
proof fn lemma_before_first_of_longer(s: Seq<char>, more: Seq<char>, c: char)
    ensures
        text::before_first(s + more, c) == if s.contains(c) {
            text::before_first(s, c)
        } else {
            s + text::before_first(more, c)
        },
        text::first_index(s + more, c) == if s.contains(c) {
            text::first_index(s, c)
        } else {
            s.len() + text::first_index(more, c)
        },
        !s.contains(c) ==> text::before_first(s, c) == s,
{
    let whole = s + more;
    let n = text::first_index(s, c);
    let m = text::first_index(more, c);
    text::lemma_first_index_is_first(s, c);
    text::lemma_first_index_is_first(more, c);
    if s.contains(c) {
        let i = choose|i: int| 0 <= i < s.len() && s[i] == c;
        assert(n < s.len());
        assert forall|j: int| 0 <= j < n implies whole[j] != c by {
            assert(whole[j] == s[j]);
        }
        text::lemma_first_index(whole, c, n);
        assert(whole.take(n) =~= s.take(n));
    } else {
        assert forall|j: int| 0 <= j < s.len() + m implies whole[j] != c by {
            if j < s.len() {
                assert(s.contains(s[j]));
            } else {
                assert(whole[j] == more[j - s.len()]);
            }
        }
        if m < more.len() {
            assert(whole[s.len() + m] == more[m]);
        }
        text::lemma_first_index(whole, c, s.len() + m);
        assert(whole.take(s.len() + m) =~= s + more.take(m));
        assert(n == s.len()) by {
            if n < s.len() {
                assert(s.contains(s[n]));
            }
        }
        assert(s.take(n) =~= s);
    }
}

/// A query without a slash does not change the host.
proof fn lemma_query_keeps_host(path: Seq<char>, query: Seq<char>)
    requires
        query.len() > 0,
        query[0] == '?',
        !query.contains('/'),
    ensures
        host_of(path + query) == host_of(path),
{
    reveal_strlit("//");
    let whole = path + query;
    text::lemma_first_index_is_first(path, '/');
    text::lemma_first_index_is_first(query, '/');
    text::lemma_first_index(query, '?', 0);
    assert(text::before_first(query, '?') =~= Seq::<char>::empty());
    assert(text::first_index(query, '/') == query.len()) by {
        let q = text::first_index(query, '/');
        if q < query.len() {
            assert(query.contains(query[q]));
        }
    }
    lemma_before_first_of_longer(path, query, '/');
    let n = text::first_index(path, '/');
    // Behind the scheme the query follows as it did.
    let rest = after_scheme(path);
    assert(after_scheme(whole) == rest + query) by {
        if path.contains('/') {
            assert(whole.take(n) =~= path.take(n));
            if text::begins(whole.skip(n), "//"@) {
                assert(whole.skip(n).subrange(0, 2)[1] == '/');
                assert(whole[n + 1] == '/');
                if n + 1 >= path.len() {
                    assert(whole[n + 1] == query[n + 1 - path.len()]);
                    assert(query.contains(query[n + 1 - path.len()]));
                }
                assert(path.skip(n).subrange(0, 2) =~= whole.skip(n).subrange(0, 2));
            }
            if text::begins(path.skip(n), "//"@) {
                assert(path.skip(n).subrange(0, 2) =~= whole.skip(n).subrange(0, 2));
                assert(whole.skip(n + 2) =~= path.skip(n + 2) + query);
            }
        } else {
            assert(whole.skip(whole.len() as int).len() == 0);
            assert(n == path.len()) by {
                if n < path.len() {
                    assert(path.contains(path[n]));
                }
            }
            assert(path.skip(n).len() == 0);
        }
    }
    lemma_before_first_of_longer(rest, query, '/');
    assert(query.take(query.len() as int) =~= query);
    if !rest.contains('/') {
        lemma_before_first_of_longer(rest, query, '?');
        assert(rest + Seq::<char>::empty() =~= rest);
    }
}

proof fn lemma_no_marker_no_collection(s: Seq<char>)
    requires
        forall|i: int| 0 <= i <= s.len() ==> !patterns::collection_marker(#[trigger] s.skip(i)),
    ensures
        patterns::collection_digits(s) is None,
    decreases s.len(),
{
    if s.len() > 0 {
        assert(s.skip(0) =~= s);
        let rest = s.drop_first();
        assert forall|i: int| 0 <= i <= rest.len() implies !patterns::collection_marker(
            #[trigger] rest.skip(i),
        ) by {
            assert(rest.skip(i) =~= s.skip(i + 1));
        }
        lemma_no_marker_no_collection(rest);
    }
}

/// A query without a slash does not change the collection.
proof fn lemma_query_keeps_collection(path: Seq<char>, query: Seq<char>)
    requires
        query.len() > 0,
        query[0] == '?',
        forall|i: int| 0 <= i < query.len() ==> query[i] != '/',
    ensures
        patterns::collection_digits(path + query) == patterns::collection_digits(path),
    decreases path.len(),
{
    reveal_strlit("/id");
    if path.len() == 0 {
        assert(path + query =~= query);
        assert forall|i: int| 0 <= i <= query.len() implies !patterns::collection_marker(
            #[trigger] query.skip(i),
        ) by {
            if patterns::collection_marker(query.skip(i)) {
                assert(query.skip(i).subrange(0, 3)[0] == query[i]);
            }
        }
        lemma_no_marker_no_collection(query);
    } else {
        let whole = path + query;
        assert(whole.drop_first() =~= path.drop_first() + query);
        lemma_query_keeps_collection(path.drop_first(), query);
        if path.len() >= 3 {
            assert(whole.subrange(0, 3) =~= path.subrange(0, 3));
            assert(whole.skip(3) =~= path.skip(3) + query);
            lemma_digit_run_before(path.skip(3), query);
        } else if patterns::collection_marker(whole) {
            let found = whole.subrange(0, 3);
            assert(found[1] == whole[1] && found[2] == whole[2]);
            assert(whole[path.len() as int] == '?');
        }
    }
}

/// Digits do not go on in what begins with another character.
proof fn lemma_digit_run_before(s: Seq<char>, rest: Seq<char>)
    requires
        rest.len() > 0,
        !text::is_digit(rest[0]),
    ensures
        text::digit_run(s + rest) == text::digit_run(s),
    decreases s.len(),
{
    if s.len() == 0 {
        assert(s + rest =~= rest);
    } else {
        assert((s + rest).drop_first() =~= s.drop_first() + rest);
        lemma_digit_run_before(s.drop_first(), rest);
    }
}

/// Appending `?i=` and digits to a URL without a query sets the episode and
/// keeps the show; without it no episode is named.
pub proof fn lemma_appended_episode(url: Seq<char>, episode: Seq<char>)
    requires
        !url.contains('?'),
        !url.contains('&'),
        episode.len() > 0 && text::all_digits(episode),
    ensures
        plain_apple_ids(url + "?i="@ + episode) == with_episode(plain_apple_ids(url), episode),
        plain_apple_ids(url) matches Some(ids) ==> ids.episode_id is None,
        appends_episode(url + "?i="@ + episode),
        text::before_first(url + "?i="@ + episode, '?') == url,
        patterns::query_of(url + "?i="@ + episode).skip(3) == episode,
{
    reveal_strlit("?i=");
    let query = "?i="@ + episode;
    let whole = url + query;
    assert(url + "?i="@ + episode =~= whole);
    assert forall|i: int| 0 <= i < url.len() implies whole[i] != '?' by {
        assert(whole[i] == url[i]);
        assert(url.contains(url[i]));
    }
    text::lemma_first_index(whole, '?', url.len() as int);
    assert(whole.take(url.len() as int) =~= url);
    assert(whole.skip(url.len() as int) =~= query);
    assert(query.skip(3) =~= episode);
    assert(query.subrange(0, 3) =~= "?i="@);
    lemma_appended_query(whole);
    assert forall|i: int| 0 <= i < query.len() implies query[i] != '/' by {
        assert(query.contains(query[i]));
    }
    lemma_query_keeps_collection(url, query);
    lemma_no_query_no_episode(url);
}

proof fn lemma_digit_run_within(s: Seq<char>)
    ensures
        text::digit_run(s).len() <= s.len(),
    decreases s.len(),
{
    if s.len() > 0 && text::is_digit(s[0]) {
        lemma_digit_run_within(s.drop_first());
    }
}

/// What stands before a slash does not hide the identifiers after it, where it
/// has none itself.
proof fn lemma_skip_path(path: Seq<char>, rest: Seq<char>)
    requires
        rest.len() > 0,
        rest[0] == '/',
    ensures
        patterns::collection_digits(path) is None ==> patterns::collection_digits(path + rest)
            == patterns::collection_digits(rest),
        patterns::episode_digits(path) is None ==> patterns::episode_digits(path + rest)
            == patterns::episode_digits(rest),
    decreases path.len(),
{
    if path.len() == 0 {
        assert(path + rest =~= rest);
    } else {
        reveal_strlit("/id");
        reveal_strlit("?i=");
        reveal_strlit("&i=");
        let whole = path + rest;
        let found = whole.subrange(0, 3);
        let after = whole.skip(3);
        assert(whole.drop_first() =~= path.drop_first() + rest);
        lemma_skip_path(path.drop_first(), rest);
        if whole.len() >= 4 && path.len() >= 4 {
            assert(path.subrange(0, 3) =~= found);
            assert(path.skip(3)[0] == after[0]);
        } else if whole.len() >= 4 {
            assert(whole[path.len() as int] == '/');
            assert(found[0] == whole[0] && found[1] == whole[1] && found[2] == whole[2]);
            assert(after[0] == whole[3]);
        }
    }
}

/// What has neither a question mark nor an ampersand does not hide the episode
/// after it.
proof fn lemma_skip_to_query(path: Seq<char>, rest: Seq<char>)
    requires
        forall|i: int| 0 <= i < path.len() ==> #[trigger] path[i] != '?' && path[i] != '&',
    ensures
        patterns::episode_digits(path + rest) == patterns::episode_digits(rest),
    decreases path.len(),
{
    if path.len() == 0 {
        assert(path + rest =~= rest);
    } else {
        reveal_strlit("?i=");
        reveal_strlit("&i=");
        let whole = path + rest;
        assert(whole[0] == path[0]);
        if whole.len() >= 3 {
            assert(whole.subrange(0, 3)[0] == path[0]);
        }
        assert(whole.drop_first() =~= path.drop_first() + rest);
        assert forall|i: int| 0 <= i < path.drop_first().len() implies #[trigger] path.drop_first()[i]
            != '?' && path.drop_first()[i] != '&' by {
            assert(path.drop_first()[i] == path[i + 1]);
        }
        lemma_skip_to_query(path.drop_first(), rest);
    }
}

/// The identifiers are read back from the URL of a show and from that of an
/// episode, whatever leads up to them that has no identifiers itself.
pub proof fn lemma_identifiers_read_back(
    path: Seq<char>,
    collection: Seq<char>,
    episode: Seq<char>,
)
    requires
        is_apple_url(path + "/id"@ + collection),
        patterns::collection_digits(path) is None,
        patterns::episode_digits(path) is None,
        collection.len() > 0 && text::all_digits(collection),
        episode.len() > 0 && text::all_digits(episode),
    ensures
        plain_apple_ids(path + "/id"@ + collection) == Some(
            (AppleIdsView { collection_id: collection, episode_id: None }),
        ),
        plain_apple_ids(path + "/id"@ + collection + "?i="@ + episode) == Some(
            (AppleIdsView { collection_id: collection, episode_id: Some(episode) }),
        ),
{
    reveal_strlit("/id");
    reveal_strlit("?i=");
    let none = Seq::<char>::empty();
    let query = "?i="@ + episode;
    let short = "/id"@ + collection;
    let long = short + query;
    assert(path + "/id"@ + collection =~= path + short);
    assert(path + "/id"@ + collection + "?i="@ + episode =~= path + long);
    assert(path + long =~= (path + short) + query);
    assert(!query.contains('/')) by {
        assert forall|i: int| 0 <= i < query.len() implies query[i] != '/' by {
            if i >= 3 {
                assert(query[i] == episode[i - 3]);
                assert(text::is_digit(episode[i - 3]));
            }
        }
    }
    lemma_query_keeps_host(path + short, query);
    lemma_skip_path(path, short);
    lemma_skip_path(path, long);
    // The collection.
    assert(short.subrange(0, 3) =~= "/id"@);
    assert(long.subrange(0, 3) =~= "/id"@);
    text::lemma_digit_run(collection, none);
    text::lemma_digit_run(collection, query);
    assert(short.skip(3) =~= collection + none);
    assert(long.skip(3) =~= collection + query);
    // The episode.
    assert forall|i: int| 0 <= i < short.len() implies #[trigger] short[i] != '?' && short[i]
        != '&' by {
        if i >= 3 {
            assert(short[i] == collection[i - 3]);
            assert(text::is_digit(collection[i - 3]));
        }
    }
    lemma_skip_to_query(short, none);
    assert(short + none =~= short);
    lemma_skip_to_query(short, query);
    assert(query.subrange(0, 3) =~= "?i="@);
    text::lemma_digit_run(episode, none);
    assert(query.skip(3) =~= episode + none);
}

/// A link is found wherever it stands in a message: at the first place where
/// one begins, and in full.
pub proof fn lemma_link_found_anywhere(message: Seq<char>, at: int)
    requires
        0 <= at <= message.len(),
        patterns::link_prefix(message.skip(at)) is Some,
        forall|i: int|
            0 <= i < at ==> patterns::link_prefix(#[trigger] message.skip(i)) is None,
    ensures
        patterns::first_link(message) == patterns::link_prefix(message.skip(at)),
    decreases at,
{
    assert(message.skip(0) =~= message);
    if at > 0 {
        let rest = message.drop_first();
        assert(rest.skip(at - 1) =~= message.skip(at));
        assert forall|i: int| 0 <= i < at - 1 implies patterns::link_prefix(
            #[trigger] rest.skip(i),
        ) is None by {
            assert(rest.skip(i) =~= message.skip(i + 1));
        }
        lemma_link_found_anywhere(rest, at - 1);
    }
}

proof fn lemma_literal_host(host: Seq<char>)
    requires
        host == "podcasts.apple.com"@,
    ensures
        text::before_first(host, '?') == host,
        text::before_first(host, '#') == host,
        text::after_last(host, '@') == host,
        text::before_first(host, ':') == host,
        text::trimmed(host) == host,
        text::lowered(host) == host,
{
    reveal_strlit("podcasts.apple.com");
    text::lemma_first_index(host, '?', 18);
    text::lemma_first_index(host, '#', 18);
    text::lemma_first_index(host, ':', 18);
    text::lemma_last_end(host, '@', 0);
    assert(host.take(18) =~= host);
    assert(host.skip(0) =~= host);
    assert(text::lowered(host) =~= host);
}

/// What begins with the scheme and host of Apple Podcasts is an Apple Podcasts
/// URL, whatever follows.
pub proof fn lemma_link_head_is_apple(url: Seq<char>)
    requires
        patterns::link_head(url) is Some,
    ensures
        is_apple_url(url),
{
    reveal_strlit("https://podcasts.apple.com/");
    reveal_strlit("http://podcasts.apple.com/");
    reveal_strlit("podcasts.apple.com");
    reveal_strlit("//");
    reveal_strlit(":");
    reveal_strlit("?");
    reveal_strlit("#");
    let head = patterns::link_head(url)->0;
    let h = head.len() as int;
    assert forall|i: int| 0 <= i < h implies url[i] == head[i] by {
        assert(url.subrange(0, h)[i] == url[i]);
    }
    let n = h - 21;
    text::lemma_first_index(url, '/', n);
    let scheme = url.take(n);
    assert(url.skip(n).subrange(0, 2) =~= "//"@);
    assert(scheme.subrange(n - 1, n) =~= ":"@);
    if text::occurs(scheme, "?"@) {
        let at = choose|at: int| text::stands_at(scheme, "?"@, at);
        assert(scheme.subrange(at, at + 1)[0] == scheme[at]);
        assert(scheme[at] == head[at]);
    }
    if text::occurs(scheme, "#"@) {
        let at = choose|at: int| text::stands_at(scheme, "#"@, at);
        assert(scheme.subrange(at, at + 1)[0] == scheme[at]);
        assert(scheme[at] == head[at]);
    }
    let rest = url.skip(n + 2);
    assert forall|i: int| 0 <= i < 18 implies rest[i] != '/' by {
        assert(rest[i] == head[n + 2 + i]);
    }
    assert(rest[18] == head[n + 20]);
    text::lemma_first_index(rest, '/', 18);
    assert(rest.take(18) =~= "podcasts.apple.com"@);
    lemma_literal_host("podcasts.apple.com"@);
}

/// The link that is found in a message is an Apple Podcasts URL and stands in
/// the message.
pub proof fn lemma_found_link_is_apple_url(message: Seq<char>)
    requires
        patterns::first_link(message) is Some,
    ensures
        is_apple_url(patterns::first_link(message)->0),
        text::occurs(message, patterns::first_link(message)->0),
    decreases message.len(),
{
    let link = patterns::first_link(message)->0;
    if patterns::link_prefix(message) is Some {
        lemma_first_link_shape(message);
        lemma_link_head_is_apple(link);
        let head = patterns::link_head(message)->0;
        let rest = message.skip(head.len() as int);
        lemma_dark_run_prefix(rest);
        assert(message.subrange(0, link.len() as int) =~= link);
        assert(text::stands_at(message, link, 0));
    } else {
        let rest = message.drop_first();
        lemma_found_link_is_apple_url(rest);
        let at = choose|at: int| text::stands_at(rest, link, at);
        assert(message.subrange(at + 1, at + 1 + link.len()) =~= rest.subrange(
            at,
            at + link.len(),
        ));
        assert(text::stands_at(message, link, at + 1));
    }
}

/// The episode is looked up where the URL names one, and the show otherwise.
pub proof fn lemma_episode_preferred(ids: AppleIdsView)
    ensures
        ids.episode_id matches Some(id) ==> lookup_id(ids) == id,
        ids.episode_id is None ==> lookup_id(ids) == ids.collection_id,
{
}

/// Whether a text has no character that ends the host part of a URL.
pub open spec fn is_unbroken(s: Seq<char>) -> bool {
    !s.contains('/') && !s.contains('?') && !s.contains('#')
}

/// Whether the host part of a URL can end where this follows.
pub open spec fn ends_host(rest: Seq<char>) -> bool {
    rest.len() > 0 ==> rest[0] == '/' || rest[0] == '?' || rest[0] == '#'
}

proof fn lemma_authority(url: Seq<char>, authority: Seq<char>, rest: Seq<char>)
    requires
        after_scheme(url) == authority + rest,
        is_unbroken(authority),
        ends_host(rest),
    ensures
        authority_of(url) == authority,
{
    let none = Seq::<char>::empty();
    let r1 = text::before_first(rest, '/');
    let r2 = text::before_first(r1, '?');
    let r3 = text::before_first(r2, '#');
    lemma_before_first_of_longer(authority, rest, '/');
    lemma_before_first_of_longer(authority, r1, '?');
    lemma_before_first_of_longer(authority, r2, '#');
    lemma_before_first_begins(rest, '/');
    lemma_before_first_begins(r1, '?');
    lemma_before_first_begins(r2, '#');
    assert(r3.len() == 0);
    assert(authority + r3 =~= authority);
}

/// What stands before the first `c` is empty where the text begins with `c`, and
/// begins like the text otherwise.
proof fn lemma_before_first_begins(s: Seq<char>, c: char)
    ensures
        s.len() == 0 || s[0] == c ==> text::before_first(s, c).len() == 0,
        s.len() > 0 && s[0] != c ==> text::before_first(s, c).len() > 0 && text::before_first(
            s,
            c,
        )[0] == s[0],
{
    text::lemma_first_index_is_first(s, c);
}

/// A URL is Apple's by its host alone, in any case of its letters: whatever the
/// scheme is, whoever the user and whichever the port, and whatever follows. Every
/// other host is refused.
pub proof fn lemma_host_decides(
    scheme: Seq<char>,
    user: Seq<char>,
    host: Seq<char>,
    port: Seq<char>,
    rest: Seq<char>,
)
    requires
        is_unbroken(scheme),
        is_unbroken(user) && (user.len() > 0 ==> user.last() == '@'),
        is_unbroken(host) && !host.contains('@') && !host.contains(':'),
        is_unbroken(port) && !port.contains('@') && (port.len() > 0 ==> port[0] == ':'),
        ends_host(rest),
        host.len() > 0 ==> !text::is_white_space(host[0]) && !text::is_white_space(host.last()),
    ensures
        is_apple_url(scheme + "://"@ + user + host + port + rest) <==> text::lowered(host)
            == "podcasts.apple.com"@,
{
    reveal_strlit("://");
    reveal_strlit("//");
    reveal_strlit(":");
    reveal_strlit("?");
    reveal_strlit("#");
    let authority = user + host + port;
    let url = scheme + "://"@ + user + host + port + rest;
    let head = scheme.push(':');
    let n = head.len() as int;
    assert(url =~= head + seq!['/', '/'] + authority + rest);
    assert forall|i: int| 0 <= i < n implies url[i] != '/' by {
        assert(url[i] == head[i]);
        if i < scheme.len() {
            assert(scheme.contains(scheme[i]));
        }
    }
    assert(url[n] == '/');
    text::lemma_first_index(url, '/', n);
    assert(url.take(n) =~= head);
    assert(url.skip(n).subrange(0, 2) =~= "//"@);
    assert(head.subrange(n - 1, n) =~= ":"@);
    if text::occurs(head, "?"@) {
        let at = choose|at: int| text::stands_at(head, "?"@, at);
        assert(head.subrange(at, at + 1)[0] == head[at]);
        assert(scheme.contains(scheme[at]));
    }
    if text::occurs(head, "#"@) {
        let at = choose|at: int| text::stands_at(head, "#"@, at);
        assert(head.subrange(at, at + 1)[0] == head[at]);
        assert(scheme.contains(scheme[at]));
    }
    assert(url.skip(n + 2) =~= authority + rest);
    lemma_authority_unbroken(user, host, port);
    lemma_authority(url, authority, rest);
    lemma_host_in_authority(user, host, port);
}

proof fn lemma_authority_unbroken(user: Seq<char>, host: Seq<char>, port: Seq<char>)
    requires
        is_unbroken(user),
        is_unbroken(host),
        is_unbroken(port),
    ensures
        is_unbroken(user + host + port),
{
    let all = user + host + port;
    assert forall|i: int| 0 <= i < all.len() implies all[i] != '/' && all[i] != '?' && all[i]
        != '#' by {
        if i < user.len() {
            assert(all[i] == user[i]);
            assert(user.contains(user[i]));
        } else if i < user.len() + host.len() {
            assert(all[i] == host[i - user.len()]);
            assert(host.contains(host[i - user.len()]));
        } else {
            assert(all[i] == port[i - user.len() - host.len()]);
            assert(port.contains(port[i - user.len() - host.len()]));
        }
    }
}

proof fn lemma_host_in_authority(user: Seq<char>, host: Seq<char>, port: Seq<char>)
    requires
        user.len() > 0 ==> user.last() == '@',
        !host.contains('@') && !host.contains(':'),
        !port.contains('@') && (port.len() > 0 ==> port[0] == ':'),
        host.len() > 0 ==> !text::is_white_space(host[0]) && !text::is_white_space(host.last()),
    ensures
        text::trimmed(
            text::before_first(text::after_last(user + host + port, '@'), ':'),
        ) == host,
{
    let none = Seq::<char>::empty();
    let all = user + host + port;
    let after = host + port;
    assert forall|i: int| user.len() <= i < all.len() implies all[i] != '@' by {
        let j = i - user.len();
        assert(all[i] == after[j]);
        if j < host.len() {
            assert(host.contains(host[j]));
        } else {
            assert(port.contains(port[j - host.len()]));
        }
    }
    text::lemma_last_end(all, '@', user.len() as int);
    assert(all.skip(user.len() as int) =~= after);
    assert forall|i: int| 0 <= i < host.len() implies after[i] != ':' by {
        assert(host.contains(host[i]));
    }
    text::lemma_first_index(after, ':', host.len() as int);
    assert(after.take(host.len() as int) =~= host);
    text::lemma_trimmed(none, host, none);
    assert(none + host + none =~= host);
}

/// The same of a URL that is written without a scheme.
pub proof fn lemma_bare_host_decides(host: Seq<char>, rest: Seq<char>)
    requires
        host.len() > 0,
        is_unbroken(host) && !host.contains('@') && !host.contains(':'),
        ends_host(rest),
        !text::is_white_space(host[0]) && !text::is_white_space(host.last()),
    ensures
        is_apple_url(host + rest) <==> text::lowered(host) == "podcasts.apple.com"@,
{
    reveal_strlit(":");
    let none = Seq::<char>::empty();
    let url = host + rest;
    lemma_before_first_of_longer(host, rest, '/');
    lemma_before_first_begins(rest, '/');
    let scheme = url.take(text::first_index(url, '/'));
    assert(text::before_first(url, '/') == scheme);
    let more = text::before_first(rest, '/');
    assert(scheme == host + more);
    if after_scheme(url) != url {
        // What stands before the slashes would end in a colon, and have no query.
        assert(text::ends(scheme, ":"@));
        assert(scheme.subrange(scheme.len() - 1, scheme.len() as int)[0] == scheme.last());
        assert(scheme.last() == ':');
        if more.len() == 0 {
            assert(scheme =~= host);
            assert(host.contains(host.last()));
        } else {
            assert(scheme[host.len() as int] == more[0]);
            reveal_strlit("?");
            reveal_strlit("#");
            let at = host.len() as int;
            if more[0] == '?' {
                assert(scheme.subrange(at, at + 1) =~= "?"@);
                assert(text::stands_at(scheme, "?"@, at));
            } else {
                assert(scheme.subrange(at, at + 1) =~= "#"@);
                assert(text::stands_at(scheme, "#"@, at));
            }
        }
    }
    lemma_authority(url, host, rest);
    lemma_host_in_authority(none, host, none);
    assert(none + host + none =~= host);
}

/// The identifiers of a URL are those that are found in it, where its host is
/// Apple's and a collection is found; there are none otherwise.
pub proof fn lemma_identifiers(url: Seq<char>)
    ensures
        plain_apple_ids(url) is Some <==> is_apple_url(url) && patterns::collection_digits(url) is Some,
        plain_apple_ids(url) matches Some(ids) ==> Some(ids.collection_id)
            == patterns::collection_digits(url) && ids.episode_id == patterns::episode_digits(url),
        apple_ids(url) is Some <==> is_apple_url(url) && patterns::regex_group(
            "/id(\\d+)"@,
            url,
        ) is Some,
        apple_ids(url) matches Some(ids) ==> Some(ids.collection_id) == patterns::regex_group(
            "/id(\\d+)"@,
            url,
        ) && ids.episode_id == patterns::regex_group("[?&]i=(\\d+)"@, url),
{
}

/// The collection is the digits after `/id`, wherever that stands and whatever
/// follows, where no other stands before it.
pub proof fn lemma_collection_anywhere(before: Seq<char>, digits: Seq<char>, after: Seq<char>)
    requires
        patterns::collection_digits(before) is None,
        digits.len() > 0,
        forall|i: int| 0 <= i < digits.len() ==> '0' <= #[trigger] digits[i] <= '9',
        after.len() > 0 ==> !('0' <= after[0] <= '9'),
    ensures
        patterns::collection_digits(before + "/id"@ + digits + after) == Some(digits),
{
    reveal_strlit("/id");
    let rest = "/id"@ + digits + after;
    assert(before + "/id"@ + digits + after =~= before + rest);
    lemma_skip_path(before, rest);
    assert(rest.subrange(0, 3) =~= "/id"@);
    assert(rest.skip(3) =~= digits + after);
    text::lemma_digits(digits, '0', after);
}

/// The episode is the digits after the first `?i=` or `&i=`, wherever that stands
/// and whatever follows, where no question mark or ampersand stands before it.
pub proof fn lemma_episode_anywhere(
    before: Seq<char>,
    marker: Seq<char>,
    digits: Seq<char>,
    after: Seq<char>,
)
    requires
        !before.contains('?') && !before.contains('&'),
        marker == "?i="@ || marker == "&i="@,
        digits.len() > 0,
        forall|i: int| 0 <= i < digits.len() ==> '0' <= #[trigger] digits[i] <= '9',
        after.len() > 0 ==> !('0' <= after[0] <= '9'),
    ensures
        patterns::episode_digits(before + marker + digits + after) == Some(digits),
{
    reveal_strlit("?i=");
    reveal_strlit("&i=");
    let rest = marker + digits + after;
    assert(before + marker + digits + after =~= before + rest);
    assert forall|i: int| 0 <= i < before.len() implies #[trigger] before[i] != '?' && before[i]
        != '&' by {
        assert(before.contains(before[i]));
    }
    lemma_skip_to_query(before, rest);
    assert(rest.subrange(0, 3) =~= marker);
    assert(rest.skip(3) =~= digits + after);
    text::lemma_digits(digits, '0', after);
}

/// The lookup asks for the episode where there is one and for the show otherwise,
/// and for the episodes of it.
pub proof fn lemma_lookup_request(collection: Seq<char>, episode: Seq<char>)
    ensures
        lookup_request((AppleIdsView { collection_id: collection, episode_id: Some(episode) }))
            == "https://itunes.apple.com/lookup?id="@ + episode
            + "&entity=podcastEpisode&limit=200"@,
        lookup_request((AppleIdsView { collection_id: collection, episode_id: None }))
            == "https://itunes.apple.com/lookup?id="@ + collection
            + "&entity=podcastEpisode&limit=200"@,
{
}

/// Whether a scheme and the host of Apple Podcasts stand at this place of a text.
pub open spec fn apple_stands_at(s: Seq<char>, at: int) -> bool {
    ||| at + 27 <= s.len() && s.subrange(at, at + 27) == "https://podcasts.apple.com/"@
    ||| at + 26 <= s.len() && s.subrange(at, at + 26) == "http://podcasts.apple.com/"@
}

/// The link in a message is the first scheme and host of Apple Podcasts in it, and
/// everything from there up to white space or the end, where that is something.
pub proof fn lemma_link_in_message(
    before: Seq<char>,
    head: Seq<char>,
    path: Seq<char>,
    after: Seq<char>,
)
    requires
        head == "https://podcasts.apple.com/"@ || head == "http://podcasts.apple.com/"@,
        path.len() > 0,
        forall|i: int| 0 <= i < path.len() ==> !text::is_white_space(#[trigger] path[i]),
        after.len() > 0 ==> text::is_white_space(after[0]),
        forall|i: int|
            0 <= i < before.len() ==> !#[trigger] apple_stands_at(before + head + path + after, i),
    ensures
        patterns::first_link(before + head + path + after) == Some(head + path),
{
    reveal_strlit("https://podcasts.apple.com/");
    reveal_strlit("http://podcasts.apple.com/");
    let message = before + head + path + after;
    let at = before.len() as int;
    let here = message.skip(at);
    let h = head.len() as int;
    assert(here =~= head + path + after);
    assert(here.subrange(0, h) =~= head);
    if head == "http://podcasts.apple.com/"@ && text::begins(here, "https://podcasts.apple.com/"@) {
        assert(here.subrange(0, 27)[4] == 's');
        assert(here[4] == head[4]);
    }
    assert(patterns::link_head(here) == Some(head));
    assert(here.skip(h) =~= path + after);
    lemma_dark_run_of(path, after);
    assert forall|i: int| 0 <= i < at implies patterns::link_prefix(
        #[trigger] message.skip(i),
    ) is None by {
        let there = message.skip(i);
        assert(!apple_stands_at(message, i));
        if text::begins(there, "https://podcasts.apple.com/"@) {
            assert(message.subrange(i, i + 27) =~= there.subrange(0, 27));
        }
        if text::begins(there, "http://podcasts.apple.com/"@) {
            assert(message.subrange(i, i + 26) =~= there.subrange(0, 26));
        }
    }
    lemma_link_found_anywhere(message, at);
}

proof fn lemma_dark_run_of(path: Seq<char>, after: Seq<char>)
    requires
        forall|i: int| 0 <= i < path.len() ==> !text::is_white_space(#[trigger] path[i]),
        after.len() > 0 ==> text::is_white_space(after[0]),
    ensures
        patterns::dark_run(path + after) == path,
    decreases path.len(),
{
    let whole = path + after;
    if path.len() == 0 {
        assert(whole =~= after);
        assert(patterns::dark_run(whole) =~= path);
    } else {
        let rest = path.drop_first();
        assert(whole.drop_first() =~= rest + after);
        assert(!text::is_white_space(path[0]));
        assert forall|i: int| 0 <= i < rest.len() implies !text::is_white_space(
            #[trigger] rest[i],
        ) by {
            assert(rest[i] == path[i + 1]);
        }
        lemma_dark_run_of(rest, after);
        assert(patterns::dark_run(whole) =~= path);
    }
}

/// Without a scheme and host of Apple Podcasts there is no link in a message.
pub proof fn lemma_no_link_in_message(message: Seq<char>)
    requires
        forall|i: int| 0 <= i <= message.len() ==> !#[trigger] apple_stands_at(message, i),
    ensures
        patterns::first_link(message) is None,
    decreases message.len(),
{
    reveal_strlit("https://podcasts.apple.com/");
    reveal_strlit("http://podcasts.apple.com/");
    assert(!apple_stands_at(message, 0));
    assert(patterns::link_prefix(message) is None);
    if message.len() > 0 {
        let rest = message.drop_first();
        assert forall|i: int| 0 <= i <= rest.len() implies !#[trigger] apple_stands_at(rest, i) by {
            assert(!apple_stands_at(message, i + 1));
            if i + 27 <= rest.len() {
                assert(rest.subrange(i, i + 27) =~= message.subrange(i + 1, i + 28));
            }
            if i + 26 <= rest.len() {
                assert(rest.subrange(i, i + 26) =~= message.subrange(i + 1, i + 27));
            }
        }
        lemma_no_link_in_message(rest);
    }
}

} // verus!
