//! The regular expressions of the library: `regex`, behind a contract.
use vstd::prelude::*;
use regex::Regex;
use crate::text;

verus! {

// ---------------------------------------------------------------------------
// Apple Podcasts links
// ---------------------------------------------------------------------------

/// The characters that `s` begins with up to the first white space.
pub open spec fn dark_run(s: Seq<char>) -> Seq<char>
    decreases s.len(),
{
    if s.len() == 0 || text::is_white_space(s[0]) {
        Seq::empty()
    } else {
        seq![s[0]] + dark_run(s.drop_first())
    }
}

/// The scheme and host that `s` begins with, where they are those of Apple Podcasts.
pub open spec fn link_head(s: Seq<char>) -> Option<Seq<char>> {
    if text::begins(s, "https://podcasts.apple.com/"@) {
        Some("https://podcasts.apple.com/"@)
    } else if text::begins(s, "http://podcasts.apple.com/"@) {
        Some("http://podcasts.apple.com/"@)
    } else {
        None
    }
}

/// The Apple Podcasts link that `s` begins with: scheme and host, and then at
/// least one character up to white space or the end.
pub open spec fn link_prefix(s: Seq<char>) -> Option<Seq<char>> {
    match link_head(s) {
        Some(head) if dark_run(s.skip(head.len() as int)).len() > 0 => Some(
            head + dark_run(s.skip(head.len() as int)),
        ),
        _ => None,
    }
}

/// The first Apple Podcasts link in `s`.
pub open spec fn first_link(s: Seq<char>) -> Option<Seq<char>>
    decreases s.len(),
{
    if link_prefix(s) is Some || s.len() == 0 {
        link_prefix(s)
    } else {
        first_link(s.drop_first())
    }
}

/// `regex::Regex::find`, for the pattern of an Apple Podcasts link: the text of
/// the leftmost match, as long as it can be.
#[verifier::external_body]
pub(crate) fn regex_find(pattern: &str, haystack: &str) -> (r: Option<String>)
    requires
        pattern@ == "https?://podcasts\\.apple\\.com/\\S+"@,
    ensures
        r.deep_view() == first_link(haystack@),
{
    Regex::new(pattern).ok()?.find(haystack).map(|m| m.as_str().to_string())
}

// ---------------------------------------------------------------------------
// Identifiers in a link
// ---------------------------------------------------------------------------

/// What the first group of a pattern holds in its leftmost match; `None` where
/// the pattern does not match.
pub uninterp spec fn regex_group(pattern: Seq<char>, haystack: Seq<char>) -> Option<Seq<char>>;

/// Whether the marker of a collection identifier stands at the beginning of `s`.
pub open spec fn collection_marker(s: Seq<char>) -> bool {
    text::begins(s, "/id"@)
}

/// Whether the marker of an episode identifier stands at the beginning of `s`.
pub open spec fn episode_marker(s: Seq<char>) -> bool {
    text::begins(s, "?i="@) || text::begins(s, "&i="@)
}

/// The digits after the first marker of a collection that digits follow.
pub open spec fn collection_digits(s: Seq<char>) -> Option<Seq<char>>
    decreases s.len(),
{
    if s.len() == 0 {
        None
    } else if collection_marker(s) && text::digit_run(s.skip(3)).len() > 0 {
        Some(text::digit_run(s.skip(3)))
    } else {
        collection_digits(s.drop_first())
    }
}

/// The digits after the first marker of an episode that digits follow.
pub open spec fn episode_digits(s: Seq<char>) -> Option<Seq<char>>
    decreases s.len(),
{
    if s.len() == 0 {
        None
    } else if episode_marker(s) && text::digit_run(s.skip(3)).len() > 0 {
        Some(text::digit_run(s.skip(3)))
    } else {
        episode_digits(s.drop_first())
    }
}

/// Whether the digits that `s` begins with are followed by an ASCII character
/// or by nothing, so that no digit of another script can go on from them.
pub open spec fn digits_end_plainly(s: Seq<char>) -> bool {
    let n = text::digit_run(s).len() as int;
    n == s.len() || s[n] < '\u{80}'
}

/// Whether what follows the markers of a collection in `s` has no digits but
/// ASCII digits.
pub open spec fn plain_collection(s: Seq<char>) -> bool {
    forall|i: int|
        0 <= i <= s.len() && collection_marker(#[trigger] s.skip(i)) ==> digits_end_plainly(
            s.skip(i).skip(3),
        )
}

/// Whether what follows the markers of an episode in `s` has no digits but ASCII
/// digits.
pub open spec fn plain_episode(s: Seq<char>) -> bool {
    forall|i: int|
        0 <= i <= s.len() && episode_marker(#[trigger] s.skip(i)) ==> digits_end_plainly(
            s.skip(i).skip(3),
        )
}

/// Whether the identifiers in `s` are written in ASCII digits.
pub open spec fn plain_identifiers(s: Seq<char>) -> bool {
    plain_collection(s) && plain_episode(s)
}

/// The query of a URL, with its question mark.
pub open spec fn query_of(s: Seq<char>) -> Seq<char> {
    s.skip(text::first_index(s, '?'))
}

/// Whether `s` has at least one character, and of the ASCII characters only digits.
pub open spec fn is_identifier(s: Seq<char>) -> bool {
    s.len() > 0 && forall|i: int| 0 <= i < s.len() && s[i] < '\u{80}' ==> text::is_digit(
        #[trigger] s[i],
    )
}

/// `regex::Regex::captures`: the text of the first group in the leftmost match.
/// For the two patterns of identifiers the group holds decimal digits, of any
/// script; where only ASCII digits follow the markers, it holds those after the
/// first marker with digits. A collection is found before the query, where no
/// slash stands in the query.
#[verifier::external_body]
pub(crate) fn regex_first_group(pattern: &str, haystack: &str) -> (r: Option<String>)
    ensures
        r.deep_view() == regex_group(pattern@, haystack@),
        pattern@ == "/id(\\d+)"@ || pattern@ == "[?&]i=(\\d+)"@ ==> (r matches Some(id)
            ==> is_identifier(id@)),
        pattern@ == "/id(\\d+)"@ && plain_collection(haystack@) ==> r.deep_view()
            == collection_digits(haystack@),
        pattern@ == "/id(\\d+)"@ && !query_of(haystack@).contains('/') ==> r.deep_view()
            == regex_group(pattern@, text::before_first(haystack@, '?')),
        pattern@ == "[?&]i=(\\d+)"@ && plain_episode(haystack@) ==> r.deep_view()
            == episode_digits(haystack@),
{
    let regex = Regex::new(pattern).ok()?;
    regex.captures(haystack)?.get(1).map(|m| m.as_str().to_string())
}

// ---------------------------------------------------------------------------
// Inline tags
// ---------------------------------------------------------------------------

/// `s` without its tags: each `<` with everything up to the next `>`.
pub open spec fn untagged(s: Seq<char>) -> Seq<char>
    decreases s.len(),
    via untagged_decreases
{
    let open = text::first_index(s, '<');
    let close = open + text::first_index(s.skip(open), '>');
    if open < s.len() && close < s.len() {
        s.take(open) + untagged(s.skip(close + 1))
    } else {
        s
    }
}

#[via_fn]
proof fn untagged_decreases(s: Seq<char>) {
    text::lemma_first_index_is_first(s, '<');
    text::lemma_first_index_is_first(s.skip(text::first_index(s, '<')), '>');
}

/// `regex::Regex::replace_all`, for the pattern of an inline tag and an empty
/// replacement: all matches are taken out.
#[verifier::external_body]
pub(crate) fn regex_replace_all(pattern: &str, haystack: &str, replacement: &str) -> (r: String)
    requires
        pattern@ == "<[^>]*>"@,
        replacement@.len() == 0,
    ensures
        r@ == untagged(haystack@),
{
    Regex::new(pattern).unwrap().replace_all(haystack, replacement).to_string()
}

// ---------------------------------------------------------------------------
// Laws
// ---------------------------------------------------------------------------

/// Whether a tag stands in `s`: a `<` with a `>` somewhere after it.
pub open spec fn has_tag(s: Seq<char>) -> bool {
    exists|i: int, j: int| 0 <= i < j < s.len() && s[i] == '<' && s[j] == '>'
}

/// No tag is left once the tags are taken out, and taking them out again
/// changes nothing.
pub proof fn lemma_untagged_has_no_tag(s: Seq<char>)
    ensures
        !has_tag(untagged(s)),
        untagged(untagged(s)) == untagged(s),
    decreases s.len(),
{
    lemma_untagged_bare(s);
    lemma_bare_is_untagged(untagged(s));
}

proof fn lemma_untagged_bare(s: Seq<char>)
    ensures
        !has_tag(untagged(s)),
    decreases s.len(),
{
    let open = text::first_index(s, '<');
    text::lemma_first_index_is_first(s, '<');
    let tail = s.skip(open);
    let width = text::first_index(tail, '>');
    text::lemma_first_index_is_first(tail, '>');
    let close = open + width;
    if open < s.len() && close < s.len() {
        let rest = untagged(s.skip(close + 1));
        lemma_untagged_bare(s.skip(close + 1));
        if has_tag(untagged(s)) {
            let (i, j) = choose|i: int, j: int|
                0 <= i < j < untagged(s).len() && untagged(s)[i] == '<' && untagged(s)[j] == '>';
            assert(i >= open);
            assert(rest[i - open] == '<' && rest[j - open] == '>');
        }
    } else if has_tag(s) {
        let (i, j) = choose|i: int, j: int| 0 <= i < j < s.len() && s[i] == '<' && s[j] == '>';
        assert(open <= i);
        assert(tail[j - open] == '>');
    }
}

/// Text without a tag is left as it is.
pub proof fn lemma_bare_is_untagged(s: Seq<char>)
    requires
        !has_tag(s),
    ensures
        untagged(s) == s,
{
    let open = text::first_index(s, '<');
    text::lemma_first_index_is_first(s, '<');
    let tail = s.skip(open);
    text::lemma_first_index_is_first(tail, '>');
    let close = open + text::first_index(tail, '>');
    if open < s.len() && close < s.len() {
        assert(s[open] == '<' && s[close] == '>');
    }
}

/// A tag is taken out from its `<` to the next `>`, and what stands around it
/// stays.
pub proof fn lemma_tag_is_taken_out(before: Seq<char>, tag: Seq<char>, after: Seq<char>)
    requires
        !before.contains('<'),
        !tag.contains('>'),
    ensures
        untagged(before + seq!['<'] + tag + seq!['>'] + after) == before + untagged(after),
{
    let s = before + seq!['<'] + tag + seq!['>'] + after;
    let open = before.len() as int;
    assert forall|i: int| 0 <= i < open implies s[i] != '<' by {
        assert(s[i] == before[i]);
        assert(before.contains(before[i]));
    }
    assert(s[open] == '<');
    text::lemma_first_index(s, '<', open);
    let tail = s.skip(open);
    let width = tag.len() + 1;
    assert forall|i: int| 0 <= i < width implies tail[i] != '>' by {
        if i > 0 {
            assert(tail[i] == tag[i - 1]);
            assert(tag.contains(tag[i - 1]));
        }
    }
    assert(tail[width as int] == '>');
    text::lemma_first_index(tail, '>', width as int);
    assert(s.take(open) =~= before);
    assert(s.skip(open + width + 1) =~= after);
}

} // verus!
