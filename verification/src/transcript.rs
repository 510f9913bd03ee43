//! Published transcripts: from WebVTT, SRT or plain text to readable prose.
use vstd::prelude::*;
use crate::patterns;
use crate::text;

verus! {

/// Whether a trimmed line is a header of WebVTT with text after a space or a tab.
pub open spec fn is_titled_header(line: Seq<char>) -> bool {
    text::begins(line, "WEBVTT "@) || text::begins(line, "WEBVTT\t"@)
}

/// Lines without a header that carries text, which can only be the first line.
pub open spec fn without_titled_header(lines: Seq<Seq<char>>) -> Seq<Seq<char>> {
    if lines.len() > 0 && is_titled_header(text::trimmed(lines[0])) {
        lines.drop_first()
    } else {
        lines
    }
}

/// Whether a trimmed line belongs to the scaffolding of WebVTT or SRT: a blank
/// line, the header without text, a note, a style, a timing line or a cue index.
pub open spec fn is_scaffolding(line: Seq<char>) -> bool {
    ||| line.len() == 0
    ||| line == "WEBVTT"@
    ||| text::begins(line, "NOTE"@)
    ||| text::begins(line, "STYLE"@)
    ||| text::occurs(line, "-->"@)
    ||| text::all_digits(line)
}

/// What a line says: without its tags and the white space around it. Nothing
/// where the line is scaffolding.
pub open spec fn prose_of(line: Seq<char>) -> Seq<char> {
    if is_scaffolding(text::trimmed(line)) {
        Seq::empty()
    } else {
        text::trimmed(patterns::untagged(text::trimmed(line)))
    }
}

/// The prose of a run of lines, without the lines that say nothing and without
/// a repetition of the line before.
pub open spec fn caption_lines(lines: Seq<Seq<char>>) -> Seq<Seq<char>>
    decreases lines.len(),
{
    if lines.len() == 0 {
        Seq::empty()
    } else {
        let said = caption_lines(lines.drop_last());
        let prose = prose_of(lines.last());
        if prose.len() == 0 || (said.len() > 0 && said.last() == prose) {
            said
        } else {
            said.push(prose)
        }
    }
}

/// Lines with a newline between each two of them.
pub open spec fn joined(lines: Seq<Seq<char>>) -> Seq<char>
    decreases lines.len(),
{
    if lines.len() == 0 {
        Seq::empty()
    } else if lines.len() == 1 {
        lines[0]
    } else {
        joined(lines.drop_last()) + "\n"@ + lines.last()
    }
}

/// The lines of a transcript, without a header that carries text.
pub open spec fn body_lines(raw: Seq<char>) -> Seq<Seq<char>> {
    without_titled_header(text::lines(raw))
}

/// The prose of a WebVTT or SRT transcript.
pub open spec fn caption_prose(raw: Seq<char>) -> Seq<char> {
    joined(caption_lines(body_lines(raw)))
}

/// Tests whether a trimmed line is a header of WebVTT with text.
fn titled_header(line: &str) -> (r: bool)
    ensures
        r == is_titled_header(line@),
{
    text::starts_with(line, "WEBVTT ") || text::starts_with(line, "WEBVTT\t")
}

/// Cuts off a header that carries text.
fn after_titled_header<'a>(raw: &'a str) -> (r: &'a str)
    ensures
        text::lines(r@) == body_lines(raw@),
{
    proof {
        text::lemma_first_index_is_first(raw@, '\n');
        reveal_strlit("WEBVTT ");
        reveal_strlit("WEBVTT\t");
        reveal_strlit("");
    }
    match text::split_once(raw, '\n') {
        Some((line, rest)) => if titled_header(text::trim(line)) {
            assert(text::lines(raw@) == seq![line@] + text::lines(rest@));
            assert(text::lines(raw@).drop_first() =~= text::lines(rest@));
            rest
        } else {
            assert(text::lines(raw@) == seq![line@] + text::lines(rest@));
            raw
        },
        None => if titled_header(text::trim(raw)) {
            assert(raw@.len() > 0);
            assert(text::lines(raw@) == seq![raw@]);
            assert(text::lines(raw@).drop_first() =~= text::lines(""@));
            ""
        } else {
            raw
        },
    }
}

/// Tests whether a trimmed line is scaffolding.
fn scaffolding(line: &str) -> (r: bool)
    ensures
        r == is_scaffolding(line@),
{
    line.is_empty() || text::same_text(line, "WEBVTT") || text::starts_with(line, "NOTE")
        || text::starts_with(line, "STYLE") || text::contains(line, "-->") || text::only_digits(line)
}

/// Reads what a line says.
fn read_prose(line: &str) -> (r: String)
    ensures
        r@ == prose_of(line@),
{
    let line = text::trim(line);
    if scaffolding(line) {
        return String::new();
    }
    let bare = patterns::regex_replace_all("<[^>]*>", line, String::new().as_str());
    text::trim(bare.as_str()).to_owned()
}

/// The prose of the lines so far, with one more line.
proof fn lemma_one_more_line(lines: Seq<Seq<char>>, line: Seq<char>)
    ensures
        caption_lines(lines.push(line)) == ({
            let said = caption_lines(lines);
            let prose = prose_of(line);
            if prose.len() == 0 || (said.len() > 0 && said.last() == prose) {
                said
            } else {
                said.push(prose)
            }
        }),
{
    assert(lines.push(line).drop_last() =~= lines);
}

/// Adds what a line says to the lines so far.
fn take_line(said: &mut Vec<String>, line: &str, Ghost(read): Ghost<Seq<Seq<char>>>)
    requires
        old(said).deep_view() == caption_lines(read),
    ensures
        final(said).deep_view() == caption_lines(read.push(line@)),
{
    proof {
        lemma_one_more_line(read, line@);
    }
    let prose = read_prose(line);
    if prose.as_str().is_empty() {
        return;
    }
    if said.len() > 0 {
        let last = said.len() - 1;
        assert(said.deep_view().last() == said@[last as int]@);
        if said[last] == prose {
            return;
        }
    }
    let ghost before = said.deep_view();
    let ghost added = prose@;
    said.push(prose);
    assert(said.deep_view() =~= before.push(added));
}

/// Joins lines with newlines.
fn join_lines(lines: &Vec<String>) -> (r: String)
    ensures
        r@ == joined(lines.deep_view()),
{
    let ghost all = lines.deep_view();
    let mut r = String::new();
    let mut i: usize = 0;
    assert(all.take(0) =~= Seq::<Seq<char>>::empty());
    while i < lines.len()
        invariant
            all == lines.deep_view(),
            i <= lines@.len(),
            r@ == joined(all.take(i as int)),
        decreases lines@.len() - i,
    {
        proof {
            assert(all.take(i + 1).drop_last() =~= all.take(i as int));
            assert(all.take(i + 1).last() == lines@[i as int]@);
        }
        if i > 0 {
            r.append("\n");
        }
        r.append(lines[i].as_str());
        assert(r@ =~= joined(all.take(i + 1)));
        i = i + 1;
    }
    assert(all.take(i as int) =~= all);
    r
}

/// Strips WebVTT/SRT scaffolding (header, cue indices, timing lines, inline
/// tags), leaving readable prose.
pub fn strip_vtt_timestamps(raw: &str) -> (r: String)
    ensures
        r@ == caption_prose(raw@),
{
    let mut said: Vec<String> = Vec::new();
    let mut rest: &str = after_titled_header(raw);
    let ghost mut read: Seq<Seq<char>> = Seq::empty();
    assert(said.deep_view() =~= caption_lines(read));
    assert(read + text::lines(rest@) =~= body_lines(raw@));
    while !rest.is_empty()
        invariant
            said.deep_view() == caption_lines(read),
            read + text::lines(rest@) == body_lines(raw@),
        decreases rest@.len(),
    {
        let ghost n = text::first_index(rest@, '\n');
        proof {
            text::lemma_first_index_is_first(rest@, '\n');
        }
        match text::split_once(rest, '\n') {
            Some((line, tail)) => {
                take_line(&mut said, line, Ghost(read));
                proof {
                    assert(read + text::lines(rest@) =~= read.push(line@) + text::lines(tail@));
                    read = read.push(line@);
                }
                rest = tail;
            },
            None => {
                take_line(&mut said, rest, Ghost(read));
                proof {
                    assert(read + text::lines(rest@) =~= read.push(rest@));
                    assert(read.push(rest@) =~= body_lines(raw@));
                }
                return join_lines(&said);
            },
        }
    }
    proof {
        assert(read =~= body_lines(raw@));
    }
    join_lines(&said)
}

/// Whether a transcript of this type and content is timed.
pub open spec fn is_timed(raw: Seq<char>, typ: Option<Seq<char>>) -> bool {
    ||| typ matches Some(t) && (text::occurs(t, "vtt"@) || text::occurs(t, "srt"@))
    ||| text::occurs(raw, "-->"@)
}

/// The plain text of a published transcript: the prose of a timed one, and any
/// other one trimmed. `None` where that leaves nothing.
pub open spec fn plain_transcript(raw: Seq<char>, typ: Option<Seq<char>>) -> Option<Seq<char>> {
    let text = if is_timed(raw, typ) {
        caption_prose(raw)
    } else {
        text::trimmed(raw)
    };
    if text.len() == 0 {
        None
    } else {
        Some(text)
    }
}

/// Normalizes a downloaded transcript to plain text.
pub fn normalize_transcript(raw: &str, typ: Option<&str>) -> (r: Option<String>)
    ensures
        r.deep_view() == plain_transcript(raw@, typ.deep_view()),
{
    let timed_type = match typ {
        Some(t) => text::contains(t, "vtt") || text::contains(t, "srt"),
        None => false,
    };
    let text = if timed_type || text::contains(raw, "-->") {
        strip_vtt_timestamps(raw)
    } else {
        text::trim(raw).to_owned()
    };
    if text.as_str().is_empty() {
        None
    } else {
        Some(text)
    }
}

// ---------------------------------------------------------------------------
// Laws
// ---------------------------------------------------------------------------

/// No line of the prose is empty, and none repeats the line before it.
pub proof fn lemma_no_empty_or_repeated_lines(lines: Seq<Seq<char>>)
    ensures
        forall|i: int|
            0 <= i < caption_lines(lines).len() ==> (#[trigger] caption_lines(lines)[i]).len() > 0,
        forall|i: int, j: int|
            0 <= i && j == i + 1 && j < caption_lines(lines).len() ==> #[trigger] caption_lines(
                lines,
            )[i] != #[trigger] caption_lines(lines)[j],
    decreases lines.len(),
{
    if lines.len() > 0 {
        let said = caption_lines(lines.drop_last());
        let all = caption_lines(lines);
        lemma_no_empty_or_repeated_lines(lines.drop_last());
        assert forall|i: int| 0 <= i < all.len() implies (#[trigger] all[i]).len() > 0 by {
            if i < said.len() {
                assert(all[i] == said[i]);
            }
        }
        assert forall|i: int, j: int|
            0 <= i && j == i + 1 && j < all.len() implies #[trigger] all[i] != #[trigger] all[j] by {
            assert(all[i] == said[i]);
            if j < said.len() {
                assert(all[j] == said[j]);
            }
        }
    }
}

/// Every line of the prose is what some line of the transcript says that is no
/// scaffolding; it has no white space at its ends.
pub proof fn lemma_prose_comes_from_lines(lines: Seq<Seq<char>>, i: int)
    requires
        0 <= i < caption_lines(lines).len(),
    ensures
        exists|k: int|
            0 <= k < lines.len() && !is_scaffolding(text::trimmed(#[trigger] lines[k]))
                && caption_lines(lines)[i] == prose_of(lines[k]),
        text::trimmed(caption_lines(lines)[i]) == caption_lines(lines)[i],
    decreases lines.len(),
{
    let init = lines.drop_last();
    if i < caption_lines(init).len() {
        lemma_prose_comes_from_lines(init, i);
        let k = choose|k: int|
            0 <= k < init.len() && !is_scaffolding(text::trimmed(#[trigger] init[k]))
                && caption_lines(init)[i] == prose_of(init[k]);
        assert(lines[k] == init[k]);
        assert(caption_lines(lines)[i] == caption_lines(init)[i]);
    } else {
        let k = lines.len() - 1;
        text::lemma_trimmed_ends(patterns::untagged(text::trimmed(lines[k])));
        assert(caption_lines(lines)[i] == prose_of(lines[k]));
    }
}

/// No tag is left in any line of the prose.
pub proof fn lemma_prose_has_no_tags(line: Seq<char>)
    ensures
        !patterns::has_tag(prose_of(line)),
{
    if !is_scaffolding(text::trimmed(line)) {
        let bare = patterns::untagged(text::trimmed(line));
        patterns::lemma_untagged_has_no_tag(text::trimmed(line));
        lemma_trimming_adds_no_tag(bare);
    }
}

proof fn lemma_trimming_adds_no_tag(s: Seq<char>)
    requires
        !patterns::has_tag(s),
    ensures
        !patterns::has_tag(text::trimmed(s)),
    decreases s.len(),
{
    if s.len() > 0 {
        if text::is_white_space(s[0]) {
            let t = s.drop_first();
            if patterns::has_tag(t) {
                let (i, j) = choose|i: int, j: int|
                    0 <= i < j < t.len() && t[i] == '<' && t[j] == '>';
                assert(s[i + 1] == '<' && s[j + 1] == '>');
            }
            lemma_trimming_adds_no_tag(t);
        } else if text::is_white_space(s.last()) {
            let t = s.drop_last();
            if patterns::has_tag(t) {
                let (i, j) = choose|i: int, j: int|
                    0 <= i < j < t.len() && t[i] == '<' && t[j] == '>';
                assert(s[i] == '<' && s[j] == '>');
            }
            lemma_trimming_adds_no_tag(t);
        }
    }
}

/// Scaffolding leaves no trace: taking such a line out of a transcript, or
/// putting one in, does not change its prose.
pub proof fn lemma_scaffolding_leaves_no_trace(
    before: Seq<Seq<char>>,
    line: Seq<char>,
    after: Seq<Seq<char>>,
)
    requires
        is_scaffolding(text::trimmed(line)),
    ensures
        caption_lines(before.push(line) + after) == caption_lines(before + after),
    decreases after.len(),
{
    if after.len() == 0 {
        assert(before.push(line) + after =~= before.push(line));
        assert(before + after =~= before);
        lemma_one_more_line(before, line);
    } else {
        let init = after.drop_last();
        lemma_scaffolding_leaves_no_trace(before, line, init);
        assert(before.push(line) + after =~= (before.push(line) + init).push(after.last()));
        assert(before + after =~= (before + init).push(after.last()));
        lemma_one_more_line(before.push(line) + init, after.last());
        lemma_one_more_line(before + init, after.last());
    }
}

/// Whether a newline stands in `s`.
pub open spec fn has_newline(s: Seq<char>) -> bool {
    s.contains('\n')
}

proof fn lemma_lines_have_no_newline(s: Seq<char>)
    ensures
        forall|k: int| 0 <= k < text::lines(s).len() ==> !has_newline(#[trigger] text::lines(s)[k]),
    decreases s.len(),
{
    if s.len() > 0 {
        let n = text::first_index(s, '\n');
        text::lemma_first_index_is_first(s, '\n');
        if n < s.len() {
            let rest = text::lines(s.skip(n + 1));
            lemma_lines_have_no_newline(s.skip(n + 1));
            assert forall|k: int| 0 <= k < text::lines(s).len() implies !has_newline(
                #[trigger] text::lines(s)[k],
            ) by {
                if k > 0 {
                    assert(text::lines(s)[k] == rest[k - 1]);
                }
            }
        }
    }
}

proof fn lemma_trimming_adds_no_newline(s: Seq<char>)
    requires
        !has_newline(s),
    ensures
        !has_newline(text::trimmed(s)),
    decreases s.len(),
{
    if s.len() > 0 {
        if text::is_white_space(s[0]) {
            let t = s.drop_first();
            assert forall|i: int| 0 <= i < t.len() implies t[i] != '\n' by {
                assert(t[i] == s[i + 1]);
            }
            lemma_trimming_adds_no_newline(t);
        } else if text::is_white_space(s.last()) {
            let t = s.drop_last();
            assert forall|i: int| 0 <= i < t.len() implies t[i] != '\n' by {
                assert(t[i] == s[i]);
            }
            lemma_trimming_adds_no_newline(t);
        }
    }
}

proof fn lemma_untagging_adds_no_newline(s: Seq<char>)
    requires
        !has_newline(s),
    ensures
        !has_newline(patterns::untagged(s)),
    decreases s.len(),
{
    let open = text::first_index(s, '<');
    text::lemma_first_index_is_first(s, '<');
    text::lemma_first_index_is_first(s.skip(open), '>');
    let close = open + text::first_index(s.skip(open), '>');
    if open < s.len() && close < s.len() {
        let rest = s.skip(close + 1);
        assert forall|i: int| 0 <= i < rest.len() implies rest[i] != '\n' by {
            assert(rest[i] == s[close + 1 + i]);
        }
        lemma_untagging_adds_no_newline(rest);
        let all = patterns::untagged(s);
        assert forall|i: int| 0 <= i < all.len() implies all[i] != '\n' by {
            if i < open {
                assert(all[i] == s[i]);
            } else {
                assert(all[i] == patterns::untagged(rest)[i - open]);
            }
        }
    }
}

proof fn lemma_lines_of_concat(a: Seq<char>, b: Seq<char>)
    requires
        a.len() > 0,
        b.len() > 0,
        !has_newline(b),
        !has_newline(seq![a.last()]),
    ensures
        text::lines(a + "\n"@ + b) == text::lines(a).push(b),
    decreases a.len(),
{
    reveal_strlit("\n");
    let whole = a + "\n"@ + b;
    let n = text::first_index(a, '\n');
    text::lemma_first_index_is_first(a, '\n');
    assert(seq![a.last()][0] == a.last());
    if n < a.len() {
        text::lemma_first_index(whole, '\n', n);
        let rest = a.skip(n + 1);
        assert(n < a.len() - 1);
        assert(rest.last() == a.last());
        assert(whole.take(n) =~= a.take(n));
        assert(whole.skip(n + 1) =~= rest + "\n"@ + b);
        lemma_lines_of_concat(rest, b);
        assert(text::lines(whole) =~= text::lines(a).push(b));
    } else {
        assert(whole[a.len() as int] == '\n');
        text::lemma_first_index(whole, '\n', a.len() as int);
        assert(whole.take(a.len() as int) =~= a);
        assert(whole.skip(a.len() as int + 1) =~= b);
        assert forall|i: int| 0 <= i < b.len() implies b[i] != '\n' by {}
        text::lemma_first_index(b, '\n', b.len() as int);
        assert(text::lines(b) == seq![b]);
        assert(text::lines(a) == seq![a]);
        assert(text::lines(whole) == seq![whole.take(a.len() as int)] + text::lines(
            whole.skip(a.len() as int + 1),
        ));
        assert(text::lines(whole) =~= text::lines(a).push(b));
    }
}

proof fn lemma_lines_of_joined(ls: Seq<Seq<char>>)
    requires
        forall|i: int| 0 <= i < ls.len() ==> (#[trigger] ls[i]).len() > 0 && !has_newline(ls[i]),
    ensures
        text::lines(joined(ls)) == ls,
        ls.len() > 0 ==> joined(ls).len() > 0 && joined(ls).last() == ls.last().last(),
    decreases ls.len(),
{
    if ls.len() == 0 {
        assert(text::lines(joined(ls)) =~= ls);
    } else if ls.len() == 1 {
        let only = ls[0];
        assert forall|i: int| 0 <= i < only.len() implies only[i] != '\n' by {}
        text::lemma_first_index(only, '\n', only.len() as int);
        assert(text::lines(joined(ls)) =~= ls);
    } else {
        let init = ls.drop_last();
        assert forall|i: int| 0 <= i < init.len() implies (#[trigger] init[i]).len() > 0
            && !has_newline(init[i]) by {
            assert(init[i] == ls[i]);
        }
        lemma_lines_of_joined(init);
        let last = ls[ls.len() - 1];
        let before = ls[ls.len() - 2];
        assert(init.last() == before);
        assert(seq![joined(init).last()] =~= seq![before.last()]);
        assert(before[before.len() - 1] != '\n');
        assert(!has_newline(seq![before.last()]));
        lemma_lines_of_concat(joined(init), last);
        assert(init.push(last) =~= ls);
    }
}

/// The lines of the stripped transcript are the prose lines, one each.
pub proof fn lemma_one_line_per_caption(raw: Seq<char>)
    ensures
        text::lines(caption_prose(raw)) == caption_lines(body_lines(raw)),
{
    let ls = body_lines(raw);
    let said = caption_lines(ls);
    lemma_no_empty_or_repeated_lines(ls);
    lemma_lines_have_no_newline(raw);
    assert forall|i: int| 0 <= i < said.len() implies (#[trigger] said[i]).len() > 0
        && !has_newline(said[i]) by {
        lemma_prose_comes_from_lines(ls, i);
        let k = choose|k: int|
            0 <= k < ls.len() && !is_scaffolding(text::trimmed(#[trigger] ls[k])) && said[i]
                == prose_of(ls[k]);
        assert(ls[k] == text::lines(raw)[k] || ls[k] == text::lines(raw)[k + 1]);
        lemma_trimming_adds_no_newline(ls[k]);
        lemma_untagging_adds_no_newline(text::trimmed(ls[k]));
        lemma_trimming_adds_no_newline(patterns::untagged(text::trimmed(ls[k])));
    }
    lemma_lines_of_joined(said);
}

/// A header goes, with text or without, and takes nothing else with it.
pub proof fn lemma_only_the_header_goes(header: Seq<char>, lines: Seq<Seq<char>>)
    requires
        is_titled_header(text::trimmed(header)) || text::trimmed(header) == "WEBVTT"@,
    ensures
        caption_lines(without_titled_header(seq![header] + lines)) == caption_lines(lines),
{
    let all = seq![header] + lines;
    if is_titled_header(text::trimmed(header)) {
        assert(all.drop_first() =~= lines);
    } else {
        let none = Seq::<Seq<char>>::empty();
        assert(!is_titled_header("WEBVTT"@)) by {
            reveal_strlit("WEBVTT");
            reveal_strlit("WEBVTT ");
            reveal_strlit("WEBVTT\t");
        }
        assert(none.push(header) + lines =~= all);
        assert(none + lines =~= lines);
        lemma_scaffolding_leaves_no_trace(none, header, lines);
    }
}

/// What is joined begins as its first line begins.
proof fn lemma_joined_begins(lines: Seq<Seq<char>>)
    requires
        lines.len() > 0,
        lines[0].len() > 0,
    ensures
        joined(lines).len() > 0,
        joined(lines)[0] == lines[0][0],
    decreases lines.len(),
{
    if lines.len() > 1 {
        assert(lines.drop_last()[0] == lines[0]);
        lemma_joined_begins(lines.drop_last());
    }
}

/// A transcript that is handed on is never blank.
pub proof fn lemma_transcript_not_blank(raw: Seq<char>, typ: Option<Seq<char>>)
    ensures
        plain_transcript(raw, typ) matches Some(text) ==> !text::is_blank(text),
{
    if is_timed(raw, typ) {
        let said = caption_lines(body_lines(raw));
        if said.len() > 0 {
            lemma_no_empty_or_repeated_lines(body_lines(raw));
            lemma_prose_comes_from_lines(body_lines(raw), 0);
            text::lemma_trimmed_ends(said[0]);
            lemma_joined_begins(said);
            text::lemma_not_blank(caption_prose(raw), 0);
        }
    } else {
        text::lemma_trimmed_ends(raw);
    }
}

/// The lines that are skipped, by what they hold: trimmed, they are empty or
/// `WEBVTT`, begin with `NOTE` or `STYLE`, have an arrow `-->` in them, or have no
/// character but the digits `0` to `9`.
pub open spec fn is_skipped(line: Seq<char>) -> bool {
    let t = text::trimmed(line);
    ||| t.len() == 0
    ||| t == "WEBVTT"@
    ||| t.len() >= 4 && t.take(4) == "NOTE"@
    ||| t.len() >= 5 && t.take(5) == "STYLE"@
    ||| text::is_part("-->"@, t)
    ||| forall|i: int| 0 <= i < t.len() ==> '0' <= #[trigger] t[i] <= '9'
}

/// A line that is not skipped is said: its text, without tags and the white space
/// around it, is the next line of the prose, unless it is empty or repeats the line
/// before. A line that is skipped adds nothing.
pub proof fn lemma_line_is_said(lines: Seq<Seq<char>>, line: Seq<char>)
    ensures
        ({
            let before = caption_lines(lines);
            let after = caption_lines(lines.push(line));
            let said = text::trimmed(patterns::untagged(text::trimmed(line)));
            let repeats = before.len() > 0 && before.last() == said;
            &&& is_skipped(line) || said.len() == 0 || repeats ==> after == before
            &&& !is_skipped(line) && said.len() > 0 && !repeats ==> after == before.push(said)
        }),
        caption_lines(Seq::empty()) == Seq::<Seq<char>>::empty(),
{
    let t = text::trimmed(line);
    reveal_strlit("NOTE");
    reveal_strlit("STYLE");
    text::lemma_begins_and_ends(t, "NOTE"@);
    text::lemma_begins_and_ends(t, "STYLE"@);
    text::lemma_occurs(t, "-->"@);
    assert(text::all_digits(t) <==> forall|i: int|
        0 <= i < t.len() ==> '0' <= #[trigger] t[i] <= '9') by {
        if text::all_digits(t) {
            assert forall|i: int| 0 <= i < t.len() implies '0' <= #[trigger] t[i] <= '9' by {
                assert(text::is_digit(t[i]));
            }
        }
        if forall|i: int| 0 <= i < t.len() ==> '0' <= #[trigger] t[i] <= '9' {
            assert forall|i: int| 0 <= i < t.len() implies text::is_digit(#[trigger] t[i]) by {}
        }
    }
    assert(is_skipped(line) == is_scaffolding(t));
    lemma_one_more_line(lines, line);
}

/// The lines that are read are all lines of a transcript, but for a first line
/// that is, trimmed, `WEBVTT` with a space or a tab and text after it.
pub proof fn lemma_body_lines(raw: Seq<char>)
    ensures
        ({
            let lines = text::lines(raw);
            let first = text::trimmed(lines[0]);
            let titled = lines.len() > 0 && first.len() >= 7 && first.take(6) == "WEBVTT"@ && (first[6]
                == ' ' || first[6] == '\t');
            body_lines(raw) == if titled {
                lines.drop_first()
            } else {
                lines
            }
        }),
{
    reveal_strlit("WEBVTT");
    reveal_strlit("WEBVTT ");
    reveal_strlit("WEBVTT\t");
    let first = text::trimmed(text::lines(raw)[0]);
    text::lemma_begins_and_ends(first, "WEBVTT "@);
    text::lemma_begins_and_ends(first, "WEBVTT\t"@);
    if first.len() >= 7 {
        let head = first.take(7);
        assert(head.take(6) =~= first.take(6));
        assert("WEBVTT "@.take(6) =~= "WEBVTT"@);
        assert("WEBVTT\t"@.take(6) =~= "WEBVTT"@);
        assert(head[6] == first[6]);
        assert(head =~= head.take(6).push(first[6]));
        assert("WEBVTT "@ =~= "WEBVTT"@.push(' '));
        assert("WEBVTT\t"@ =~= "WEBVTT"@.push('\t'));
    }
}

/// Lines are joined with a newline before each one but the first, and with
/// nothing else.
pub proof fn lemma_joined(lines: Seq<Seq<char>>, line: Seq<char>)
    ensures
        lines.len() > 0 ==> joined(lines.push(line)) == joined(lines) + seq!['\n'] + line,
        joined(seq![line]) == line,
        joined(Seq::empty()) == Seq::<char>::empty(),
{
    reveal_strlit("\n");
    assert("\n"@ =~= seq!['\n']);
    assert(lines.push(line).drop_last() =~= lines);
}

/// The prose of a transcript is that of its lines, one after the other.
pub proof fn lemma_caption_prose(raw: Seq<char>)
    ensures
        caption_prose(raw) == joined(caption_lines(body_lines(raw))),
{
}

/// A transcript is taken for captions where its type has `vtt` or `srt` in it or
/// its text has an arrow; any other is only trimmed. It is `None` where nothing is
/// left of it, and only there.
pub proof fn lemma_plain_transcript(raw: Seq<char>, typ: Option<Seq<char>>)
    ensures
        ({
            let timed = (typ matches Some(t) && (text::is_part("vtt"@, t) || text::is_part(
                "srt"@,
                t,
            ))) || text::is_part("-->"@, raw);
            let left = if timed {
                caption_prose(raw)
            } else {
                text::trimmed(raw)
            };
            plain_transcript(raw, typ) == if left.len() == 0 {
                None
            } else {
                Some(left)
            }
        }),
{
    text::lemma_occurs(raw, "-->"@);
    if let Some(t) = typ {
        text::lemma_occurs(t, "vtt"@);
        text::lemma_occurs(t, "srt"@);
    }
}

} // verus!
