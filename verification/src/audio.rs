//! Audio enclosures: the address of the audio, its file extension and its media type.
use vstd::prelude::*;
use crate::text;

verus! {

/// `url` without its query.
pub open spec fn base_of(url: Seq<char>) -> Seq<char> {
    text::before_first(url, '?')
}

/// Cuts the query off a URL.
pub fn strip_query(url: &str) -> (r: &str)
    ensures
        r@ == base_of(url@),
{
    text::head_of(url, '?')
}

/// The audio file extension that a file extension in lower case stands for.
pub open spec fn known_ext(ext: Seq<char>) -> Seq<char> {
    if ext == "m4a"@ {
        "m4a"@
    } else if ext == "mp4"@ {
        "mp4"@
    } else if ext == "aac"@ {
        "aac"@
    } else if ext == "ogg"@ || ext == "oga"@ {
        "ogg"@
    } else if ext == "wav"@ {
        "wav"@
    } else if ext == "flac"@ {
        "flac"@
    } else {
        "mp3"@
    }
}

/// The audio file extension of a URL: what follows the last dot before the
/// query, in lower case, where that is a known one, and `mp3` otherwise.
pub open spec fn ext_of(url: Seq<char>) -> Seq<char> {
    known_ext(text::lowered(text::after_last(base_of(url), '.')))
}

/// Lowercased audio file extension from a URL (defaults to `mp3`).
pub fn audio_ext(url: &str) -> (r: &'static str)
    ensures
        r@ == ext_of(url@),
{
    let path = strip_query(url);
    let ext = text::tail_of(path, '.');
    if text::lowers_to(ext, "m4a") {
        "m4a"
    } else if text::lowers_to(ext, "mp4") {
        "mp4"
    } else if text::lowers_to(ext, "aac") {
        "aac"
    } else if text::lowers_to(ext, "ogg") || text::lowers_to(ext, "oga") {
        "ogg"
    } else if text::lowers_to(ext, "wav") {
        "wav"
    } else if text::lowers_to(ext, "flac") {
        "flac"
    } else {
        "mp3"
    }
}

/// The media type of audio with this file extension.
pub open spec fn mime_of(ext: Seq<char>) -> Seq<char> {
    if ext == "m4a"@ || ext == "mp4"@ || ext == "aac"@ {
        "audio/mp4"@
    } else if ext == "ogg"@ {
        "audio/ogg"@
    } else if ext == "wav"@ {
        "audio/wav"@
    } else if ext == "flac"@ {
        "audio/flac"@
    } else {
        "audio/mpeg"@
    }
}

/// The media type of audio with this file extension.
pub fn audio_mime(ext: &str) -> (r: &'static str)
    ensures
        r@ == mime_of(ext@),
{
    if text::same_text(ext, "m4a") || text::same_text(ext, "mp4") || text::same_text(ext, "aac") {
        "audio/mp4"
    } else if text::same_text(ext, "ogg") {
        "audio/ogg"
    } else if text::same_text(ext, "wav") {
        "audio/wav"
    } else if text::same_text(ext, "flac") {
        "audio/flac"
    } else {
        "audio/mpeg"
    }
}

// ---------------------------------------------------------------------------
// Laws
// ---------------------------------------------------------------------------

/// A URL without its query has no question mark, and nothing more to cut off.
pub proof fn lemma_base_has_no_query(url: Seq<char>)
    ensures
        !base_of(url).contains('?'),
        base_of(base_of(url)) == base_of(url),
{
    text::lemma_first_index_is_first(url, '?');
    let base = base_of(url);
    assert forall|i: int| 0 <= i < base.len() implies base[i] != '?' by {
        assert(base[i] == url[i]);
    }
    text::lemma_first_index(base, '?', base.len() as int);
    assert(base.take(base.len() as int) =~= base);
}

/// A query changes neither what a URL is without it nor the file extension.
pub proof fn lemma_query_changes_nothing(url: Seq<char>, query: Seq<char>)
    ensures
        base_of(url + seq!['?'] + query) == base_of(url),
        ext_of(url + seq!['?'] + query) == ext_of(url),
{
    let whole = url + seq!['?'] + query;
    let n = text::first_index(url, '?');
    text::lemma_first_index_is_first(url, '?');
    assert(whole[n] == '?');
    assert forall|i: int| 0 <= i < n implies whole[i] != '?' by {
        assert(whole[i] == url[i]);
    }
    text::lemma_first_index(whole, '?', n);
    assert(whole.take(n) =~= url.take(n));
}

/// The case of ASCII letters does not change the file extension.
pub proof fn lemma_case_does_not_matter(url: Seq<char>)
    ensures
        ext_of(text::lowered(url)) == ext_of(url),
{
    let low = text::lowered(url);
    let n = text::first_index(url, '?');
    text::lemma_first_index_is_first(url, '?');
    assert forall|i: int| 0 <= i < n implies low[i] != '?' by {
        assert(url[i] != '?');
    }
    text::lemma_first_index(low, '?', n);
    let base = base_of(url);
    let low_base = base_of(low);
    assert(low_base =~= text::lowered(base));
    let m = text::last_end(base, '.');
    text::lemma_last_end_is_last(base, '.');
    assert forall|i: int| m <= i < low_base.len() implies low_base[i] != '.' by {
        assert(base[i] != '.');
    }
    text::lemma_last_end(low_base, '.', m);
    assert(text::lowered(low_base.skip(m)) =~= text::lowered(base.skip(m)));
}

/// The file extension of audio is always one of the known ones, and each of
/// those stands for itself.
pub proof fn lemma_extension_is_known(url: Seq<char>)
    ensures
        seq!["mp3"@, "m4a"@, "mp4"@, "aac"@, "ogg"@, "wav"@, "flac"@].contains(ext_of(url)),
        known_ext(ext_of(url)) == ext_of(url),
{
    let known = seq!["mp3"@, "m4a"@, "mp4"@, "aac"@, "ogg"@, "wav"@, "flac"@];
    assert(known[0] == "mp3"@ && known[1] == "m4a"@ && known[2] == "mp4"@ && known[3] == "aac"@);
    assert(known[4] == "ogg"@ && known[5] == "wav"@ && known[6] == "flac"@);
    lemma_extensions_differ();
}

proof fn lemma_extensions_differ()
    ensures
        "mp3"@ != "m4a"@,
        "mp3"@ != "mp4"@,
        "mp3"@ != "aac"@,
        "mp3"@ != "ogg"@,
        "mp3"@ != "oga"@,
        "mp3"@ != "wav"@,
        "mp3"@ != "flac"@,
{
    reveal_strlit("mp3");
    reveal_strlit("m4a");
    reveal_strlit("mp4");
    reveal_strlit("aac");
    reveal_strlit("ogg");
    reveal_strlit("oga");
    reveal_strlit("wav");
    reveal_strlit("flac");
    assert("mp3"@[1] == 'p' && "mp3"@[2] == '3');
    assert("m4a"@[1] == '4' && "mp4"@[2] == '4' && "aac"@[1] == 'a' && "ogg"@[1] == 'g');
    assert("oga"@[1] == 'g' && "wav"@[1] == 'a' && "flac"@[1] == 'l');
}

proof fn lemma_literals_differ()
    ensures
        "m4a"@ != "mp4"@ && "m4a"@ != "aac"@ && "m4a"@ != "ogg"@ && "m4a"@ != "oga"@ && "m4a"@
            != "wav"@ && "m4a"@ != "flac"@,
        "mp4"@ != "aac"@ && "mp4"@ != "ogg"@ && "mp4"@ != "oga"@ && "mp4"@ != "wav"@ && "mp4"@
            != "flac"@,
        "aac"@ != "ogg"@ && "aac"@ != "oga"@ && "aac"@ != "wav"@ && "aac"@ != "flac"@,
        "ogg"@ != "wav"@ && "ogg"@ != "flac"@ && "oga"@ != "wav"@ && "oga"@ != "flac"@,
        "wav"@ != "flac"@,
{
    reveal_strlit("m4a");
    reveal_strlit("mp4");
    reveal_strlit("aac");
    reveal_strlit("ogg");
    reveal_strlit("oga");
    reveal_strlit("wav");
    reveal_strlit("flac");
    assert("m4a"@[0] == 'm' && "m4a"@[1] == '4' && "mp4"@[0] == 'm' && "mp4"@[1] == 'p');
    assert("aac"@[0] == 'a' && "ogg"@[0] == 'o' && "oga"@[0] == 'o' && "wav"@[0] == 'w');
    assert("flac"@[0] == 'f');
}

/// Whether `ext` is the file extension that `written` stands for: `mp3`, `m4a`,
/// `mp4`, `aac`, `ogg`, `wav` and `flac` stand for themselves in upper and lower
/// case, `oga` stands for `ogg`, and everything else for `mp3`.
pub open spec fn stands_for(written: Seq<char>, ext: Seq<char>) -> bool {
    let low = text::lowered(written);
    &&& low == "m4a"@ ==> ext == "m4a"@
    &&& low == "mp4"@ ==> ext == "mp4"@
    &&& low == "aac"@ ==> ext == "aac"@
    &&& low == "ogg"@ || low == "oga"@ ==> ext == "ogg"@
    &&& low == "wav"@ ==> ext == "wav"@
    &&& low == "flac"@ ==> ext == "flac"@
    &&& low != "m4a"@ && low != "mp4"@ && low != "aac"@ && low != "ogg"@ && low != "oga"@ && low
        != "wav"@ && low != "flac"@ ==> ext == "mp3"@
}

/// The file extension of a URL is what its last dot before the query is followed
/// by, whatever stands before that dot and after the question mark. A URL without
/// a dot is taken for an extension itself.
pub proof fn lemma_extension(path: Seq<char>, written: Seq<char>, query: Seq<char>)
    requires
        !path.contains('?'),
        !written.contains('?'),
        !written.contains('.'),
        query.len() > 0 ==> query[0] == '?',
    ensures
        stands_for(written, ext_of(path + seq!['.'] + written + query)),
        stands_for(written, ext_of(written + query)),
{
    lemma_literals_differ();
    let dotted = path + seq!['.'] + written;
    assert(!dotted.contains('?')) by {
        assert forall|i: int| 0 <= i < dotted.len() implies dotted[i] != '?' by {
            if i < path.len() {
                assert(dotted[i] == path[i]);
                assert(path.contains(path[i]));
            } else if i > path.len() {
                assert(dotted[i] == written[i - path.len() - 1]);
                assert(written.contains(written[i - path.len() - 1]));
            }
        }
    }
    lemma_base_before_query(dotted, query);
    lemma_base_before_query(written, query);
    text::lemma_separated(path, '.', written);
    text::lemma_separated(written, '.', path);
}

/// A URL without its query is what is put before a query.
pub proof fn lemma_base_before_query(path: Seq<char>, query: Seq<char>)
    requires
        !path.contains('?'),
        query.len() > 0 ==> query[0] == '?',
    ensures
        base_of(path + query) == path,
{
    let whole = path + query;
    let n = path.len() as int;
    assert forall|i: int| 0 <= i < n implies whole[i] != '?' by {
        assert(whole[i] == path[i]);
        assert(path.contains(path[i]));
    }
    if query.len() > 0 {
        assert(whole[n] == query[0]);
    }
    text::lemma_first_index(whole, '?', n);
    assert(whole.take(n) =~= path);
}

/// The media type of each file extension: those of MPEG-4 share one, `ogg`, `wav`
/// and `flac` have their own, and everything else is MPEG audio.
pub proof fn lemma_media_type(ext: Seq<char>)
    ensures
        ext == "m4a"@ || ext == "mp4"@ || ext == "aac"@ ==> mime_of(ext) == "audio/mp4"@,
        ext == "ogg"@ ==> mime_of(ext) == "audio/ogg"@,
        ext == "wav"@ ==> mime_of(ext) == "audio/wav"@,
        ext == "flac"@ ==> mime_of(ext) == "audio/flac"@,
        ext != "m4a"@ && ext != "mp4"@ && ext != "aac"@ && ext != "ogg"@ && ext != "wav"@ && ext
            != "flac"@ ==> mime_of(ext) == "audio/mpeg"@,
{
    lemma_literals_differ();
}

} // verus!
