//! The segments that an episode is split into: their names, their order and
//! how many of them are transcribed.
use vstd::prelude::*;
use vstd::relations::*;
use crate::text;

verus! {

/// Minutes of audio per segment.
pub const SEGMENT_MINUTES: u32 = 10;

/// What the name of every segment begins with.
pub open spec fn chunk_prefix() -> Seq<char> {
    "chunk_"@
}

/// The name of the segment with this index.
pub open spec fn chunk_name(index: nat, ext: Seq<char>) -> Seq<char> {
    chunk_prefix() + text::decimal3(index) + "."@ + ext
}

/// Writes the name of a segment.
pub fn chunk_file_name(index: u64, ext: &str) -> (r: String)
    ensures
        r@ == chunk_name(index as nat, ext@),
{
    let mut r = String::new();
    r.append("chunk_");
    r.append(text::decimal3_text(index).as_str());
    r.append(".");
    r.append(ext);
    assert(r@ =~= chunk_name(index as nat, ext@));
    r
}

/// Whether a file name is that of a segment with this extension: `chunk_*.ext`.
pub open spec fn is_chunk(name: Seq<char>, ext: Seq<char>) -> bool {
    text::begins(name, chunk_prefix()) && text::ends(name, "."@ + ext)
}

/// The number that follows the prefix in the name of a segment. There is none
/// where no digit follows, or where the number does not fit 64 bits.
pub open spec fn chunk_number(name: Seq<char>) -> Option<nat> {
    let digits = text::digit_run(name.skip(chunk_prefix().len() as int));
    if text::begins(name, chunk_prefix()) && digits.len() > 0 && text::decimal_value(digits)
        <= u64::MAX {
        Some(text::decimal_value(digits))
    } else {
        None
    }
}

/// Whether `a` is at or before `b` in the order of segments: by number, names
/// without a number last, and by their characters where that does not decide.
pub open spec fn chunk_le(a: Seq<char>, b: Seq<char>) -> bool {
    match (chunk_number(a), chunk_number(b)) {
        (Some(m), Some(n)) => m < n || (m == n && text::lex_le(a, b)),
        (Some(_), None) => true,
        (None, Some(_)) => false,
        (None, None) => text::lex_le(a, b),
    }
}

/// The order of segments as a function.
pub open spec fn chunk_order() -> spec_fn(Seq<char>, Seq<char>) -> bool {
    |a: Seq<char>, b: Seq<char>| chunk_le(a, b)
}

/// The order of segments is total.
pub proof fn lemma_chunk_order_is_total()
    ensures
        total_ordering(chunk_order()),
{
    let r = chunk_order();
    assert forall|x: Seq<char>| #[trigger] r(x, x) by {
        text::lemma_lex_reflexive(x);
    }
    assert forall|x: Seq<char>, y: Seq<char>| #[trigger] r(x, y) && #[trigger] r(y, x) implies x
        == y by {
        text::lemma_lex_antisymmetric(x, y);
    }
    assert forall|x: Seq<char>, y: Seq<char>, z: Seq<char>| #[trigger]
        r(x, y) && #[trigger] r(y, z) implies r(x, z) by {
        if text::lex_le(x, y) && text::lex_le(y, z) {
            text::lemma_lex_transitive(x, y, z);
        }
    }
    assert forall|x: Seq<char>, y: Seq<char>| #[trigger] r(x, y) || #[trigger] r(y, x) by {
        text::lemma_lex_connected(x, y);
    }
}

/// More digits never make a smaller number.
proof fn lemma_value_grows(digits: Seq<char>, n: int)
    requires
        text::all_digits(digits),
        0 <= n <= digits.len(),
    ensures
        text::decimal_value(digits.take(n)) <= text::decimal_value(digits),
    decreases digits.len(),
{
    if n == digits.len() {
        assert(digits.take(n) =~= digits);
    } else {
        assert(digits.drop_last().take(n) =~= digits.take(n));
        assert forall|i: int| 0 <= i < digits.drop_last().len() implies text::is_digit(
            #[trigger] digits.drop_last()[i],
        ) by {
            assert(digits.drop_last()[i] == digits[i]);
        }
        assert(text::is_digit(digits[digits.len() - 1]));
        lemma_value_grows(digits.drop_last(), n);
    }
}

/// Reads the number in the name of a segment.
pub fn number_of(name: &str) -> (r: Option<u64>)
    ensures
        match r {
            Some(n) => chunk_number(name@) == Some(n as nat),
            None => chunk_number(name@) is None,
        },
{
    if !text::starts_with(name, "chunk_") {
        return None;
    }
    let chars = text::chars_of(name);
    proof {
        reveal_strlit("chunk_");
    }
    let mut end: usize = 6;
    while end < chars.len() && '0' <= chars[end] && chars[end] <= '9'
        invariant
            chars@ == name@,
            6 <= end <= chars@.len(),
            forall|i: int| 6 <= i < end ==> text::is_digit(#[trigger] chars@[i]),
        decreases chars@.len() - end,
    {
        end = end + 1;
    }
    let ghost digits = name@.subrange(6, end as int);
    proof {
        assert forall|i: int| 0 <= i < digits.len() implies text::is_digit(#[trigger] digits[i]) by {
            assert(digits[i] == chars@[6 + i]);
        }
        text::lemma_digit_run(digits, name@.skip(end as int));
        assert(digits + name@.skip(end as int) =~= name@.skip(6));
    }
    if end == 6 {
        return None;
    }
    let mut value: u64 = 0;
    let mut i: usize = 6;
    while i < end
        invariant
            chars@ == name@,
            6 <= i <= end <= chars@.len(),
            digits == name@.subrange(6, end as int),
            digits.len() > 0,
            text::all_digits(digits),
            digits == text::digit_run(name@.skip(6)),
            chunk_prefix().len() == 6,
            text::begins(name@, chunk_prefix()),
            value == text::decimal_value(digits.take(i - 6)),
        decreases end - i,
    {
        let ghost n = i - 6;
        proof {
            assert(digits.take(n + 1).drop_last() =~= digits.take(n));
            assert(digits[n] == chars@[i as int]);
            assert(text::is_digit(digits[n]));
            lemma_value_grows(digits, n + 1);
        }
        let d: u64 = (chars[i] as u32 - 48) as u64;
        let wide: u128 = value as u128 * 10 + d as u128;
        if wide > 0xffff_ffff_ffff_ffffu128 {
            return None;
        }
        value = wide as u64;
        i = i + 1;
    }
    assert(digits.take(end - 6) =~= digits);
    Some(value)
}

/// Compares the names of two segments by the order of segments.
pub fn in_order(a: &str, b: &str) -> (r: bool)
    ensures
        r == chunk_le(a@, b@),
{
    match (number_of(a), number_of(b)) {
        (Some(m), Some(n)) => m < n || (m == n && text::at_or_before(a, b)),
        (Some(_), None) => true,
        (None, Some(_)) => false,
        (None, None) => text::at_or_before(a, b),
    }
}

/// The names among `names` that are those of segments.
pub open spec fn chunk_names(names: Seq<Seq<char>>, ext: Seq<char>) -> Seq<Seq<char>> {
    names.filter(|name: Seq<char>| is_chunk(name, ext))
}

/// The names among `names` that are those of segments, in the order of segments.
pub open spec fn ordered_chunks(names: Seq<Seq<char>>, ext: Seq<char>) -> Seq<Seq<char>> {
    chunk_names(names, ext).sort_by(chunk_order())
}

/// Puts a name where it belongs among names that are in order.
fn insert_in_order(sorted: &mut Vec<String>, name: String)
    requires
        sorted_by(old(sorted).deep_view(), chunk_order()),
    ensures
        sorted_by(final(sorted).deep_view(), chunk_order()),
        final(sorted).deep_view().to_multiset() == old(sorted).deep_view().to_multiset().insert(
            name@,
        ),
{
    let ghost before = sorted.deep_view();
    let mut at: usize = sorted.len();
    while at > 0 && !in_order(sorted[at - 1].as_str(), name.as_str())
        invariant
            at <= sorted@.len(),
            sorted.deep_view() == before,
            forall|i: int| at <= i < before.len() ==> !chunk_le(#[trigger] before[i], name@),
        decreases at,
    {
        at = at - 1;
    }
    let ghost added = name@;
    sorted.insert(at, name);
    proof {
        let after = sorted.deep_view();
        let r = chunk_order();
        assert(after =~= before.insert(at as int, added));
        vstd::seq_lib::to_multiset_insert(before, at as int, added);
        lemma_chunk_order_is_total();
        assert forall|i: int, j: int| 0 <= i < j < after.len() implies #[trigger] r(
            after[i],
            after[j],
        ) by {
            let bi = if i < at { i } else { i - 1 };
            let bj = if j < at { j } else { j - 1 };
            if i < at && j == at {
                // The element before the gap is in order with the name, and so is all before it.
                assert(r(before[at - 1], added));
                if i < at - 1 {
                    assert(r(before[i], before[at - 1]));
                }
            } else if i == at {
                assert(!chunk_le(before[bj], added));
                assert(r(before[bj], added) || r(added, before[bj]));
            } else {
                assert(r(before[bi], before[bj]));
            }
        }
    }
}

/// Picks the segments with this extension out of the file names of a directory
/// and puts them in numeric order.
pub fn collect_chunks(names: Vec<String>, ext: &str) -> (r: Vec<String>)
    ensures
        r.deep_view() == ordered_chunks(names.deep_view(), ext@),
        sorted_by(r.deep_view(), chunk_order()),
        r.deep_view().to_multiset() == chunk_names(names.deep_view(), ext@).to_multiset(),
{
    let ghost pred = |name: Seq<char>| is_chunk(name, ext@);
    let ghost all = names.deep_view();
    let mut suffix = String::new();
    suffix.append(".");
    suffix.append(ext);
    assert(suffix@ =~= "."@ + ext@);
    let mut sorted: Vec<String> = Vec::new();
    let mut i: usize = 0;
    assert(all.take(0) =~= Seq::<Seq<char>>::empty());
    assert(sorted.deep_view() =~= all.take(0).filter(pred)) by {
        reveal(Seq::filter);
    }
    while i < names.len()
        invariant
            all == names.deep_view(),
            pred == (|name: Seq<char>| is_chunk(name, ext@)),
            suffix@ == "."@ + ext@,
            i <= names@.len(),
            sorted_by(sorted.deep_view(), chunk_order()),
            sorted.deep_view().to_multiset() == all.take(i as int).filter(pred).to_multiset(),
        decreases names@.len() - i,
    {
        let ghost kept = all.take(i as int).filter(pred);
        proof {
            reveal(Seq::filter);
            assert(all.take(i + 1).drop_last() =~= all.take(i as int));
            assert(all.take(i + 1).last() == names@[i as int]@);
            vstd::seq_lib::to_multiset_build(kept, names@[i as int]@);
        }
        if text::starts_with(names[i].as_str(), "chunk_") && text::ends_with(
            names[i].as_str(),
            suffix.as_str(),
        ) {
            insert_in_order(&mut sorted, names[i].clone());
        }
        i = i + 1;
    }
    proof {
        assert(all.take(i as int) =~= all);
        lemma_chunk_order_is_total();
        all.filter(pred).lemma_sort_by_ensures(chunk_order());
        vstd::seq_lib::lemma_sorted_unique(
            sorted.deep_view(),
            ordered_chunks(all, ext@),
            chunk_order(),
        );
    }
    sorted
}

// ---------------------------------------------------------------------------
// Splitting an episode
// ---------------------------------------------------------------------------

/// How many segments are transcribed under a limit in minutes: as many as hold
/// that much audio. The last of them may have to be trimmed.
pub open spec fn chunk_limit(max_minutes: nat) -> nat {
    ((max_minutes + SEGMENT_MINUTES - 1) / SEGMENT_MINUTES as int) as nat
}

/// How many segments are transcribed under a limit in minutes.
pub fn max_chunks(max_minutes: u32) -> (r: usize)
    ensures
        r == chunk_limit(max_minutes as nat),
{
    if max_minutes == 0 {
        0
    } else {
        ((max_minutes - 1) / SEGMENT_MINUTES + 1) as usize
    }
}

/// How many minutes of the segment with this index a limit has room for.
pub open spec fn room_for(index: nat, max_minutes: nat) -> nat {
    if (index + 1) * SEGMENT_MINUTES <= max_minutes {
        SEGMENT_MINUTES as nat
    } else if index * SEGMENT_MINUTES <= max_minutes {
        (max_minutes - index * SEGMENT_MINUTES) as nat
    } else {
        0
    }
}

/// Computes how many minutes of a segment a limit has room for.
pub fn minutes_for(index: usize, max_minutes: u32) -> (r: u32)
    ensures
        r == room_for(index as nat, max_minutes as nat),
{
    let whole: u32 = max_minutes / SEGMENT_MINUTES;
    if index < whole as usize {
        SEGMENT_MINUTES
    } else if index == whole as usize {
        max_minutes % SEGMENT_MINUTES
    } else {
        0
    }
}

/// The name under which an episode is stored before it is split.
pub open spec fn episode_name(ext: Seq<char>) -> Seq<char> {
    "episode."@ + ext
}

/// Writes the name under which an episode is stored.
pub fn episode_file_name(ext: &str) -> (r: String)
    ensures
        r@ == episode_name(ext@),
{
    let mut r = String::new();
    r.append("episode.");
    r.append(ext);
    assert(r@ =~= episode_name(ext@));
    r
}

/// One argument of an `ffmpeg` command.
#[derive(Debug)]
pub enum SplitArg {
    /// Given as it stands.
    Plain(String),
    /// The name of a file, given as its path in the workspace.
    InWorkspace(String),
}

/// What a [`SplitArg`] holds.
pub enum SplitArgView {
    Plain(Seq<char>),
    InWorkspace(Seq<char>),
}

impl DeepView for SplitArg {
    type V = SplitArgView;

    open spec fn deep_view(&self) -> SplitArgView {
        match self {
            SplitArg::Plain(text) => SplitArgView::Plain(text@),
            SplitArg::InWorkspace(name) => SplitArgView::InWorkspace(name@),
        }
    }
}

/// The arguments with which `ffmpeg` splits an episode into numbered segments
/// without encoding it anew.
pub open spec fn split_args_of(ext: Seq<char>) -> Seq<SplitArgView> {
    seq![
        SplitArgView::Plain("-hide_banner"@),
        SplitArgView::Plain("-loglevel"@),
        SplitArgView::Plain("error"@),
        SplitArgView::Plain("-i"@),
        SplitArgView::InWorkspace(episode_name(ext)),
        SplitArgView::Plain("-f"@),
        SplitArgView::Plain("segment"@),
        SplitArgView::Plain("-segment_time"@),
        SplitArgView::Plain(text::decimal(SEGMENT_MINUTES as nat * 60)),
        SplitArgView::Plain("-c"@),
        SplitArgView::Plain("copy"@),
        SplitArgView::Plain("-reset_timestamps"@),
        SplitArgView::Plain("1"@),
        SplitArgView::InWorkspace("chunk_%03d."@ + ext),
    ]
}

fn plain(text: &str) -> (r: SplitArg)
    ensures
        r.deep_view() == SplitArgView::Plain(text@),
{
    SplitArg::Plain(text.to_owned())
}

/// Builds the arguments with which `ffmpeg` splits an episode.
pub fn split_args(ext: &str) -> (r: Vec<SplitArg>)
    ensures
        r.deep_view() == split_args_of(ext@),
{
    let mut r: Vec<SplitArg> = Vec::new();
    r.push(plain("-hide_banner"));
    r.push(plain("-loglevel"));
    r.push(plain("error"));
    r.push(plain("-i"));
    r.push(SplitArg::InWorkspace(episode_file_name(ext)));
    r.push(plain("-f"));
    r.push(plain("segment"));
    r.push(plain("-segment_time"));
    r.push(SplitArg::Plain(text::decimal_text(SEGMENT_MINUTES as u64 * 60)));
    r.push(plain("-c"));
    r.push(plain("copy"));
    r.push(plain("-reset_timestamps"));
    r.push(plain("1"));
    let mut pattern = String::new();
    pattern.append("chunk_%03d.");
    pattern.append(ext);
    assert(pattern@ =~= "chunk_%03d."@ + ext@);
    r.push(SplitArg::InWorkspace(pattern));
    assert(r.deep_view() =~= split_args_of(ext@));
    r
}

/// The name under which a trimmed segment is stored.
pub open spec fn trimmed_name(ext: Seq<char>) -> Seq<char> {
    "trimmed."@ + ext
}

/// Writes the name under which a trimmed segment is stored.
pub fn trimmed_file_name(ext: &str) -> (r: String)
    ensures
        r@ == trimmed_name(ext@),
{
    let mut r = String::new();
    r.append("trimmed.");
    r.append(ext);
    assert(r@ =~= trimmed_name(ext@));
    r
}

/// The arguments with which `ffmpeg` trims a segment to its first minutes
/// without encoding it anew.
pub open spec fn trim_args_of(name: Seq<char>, minutes: nat, ext: Seq<char>) -> Seq<SplitArgView> {
    seq![
        SplitArgView::Plain("-hide_banner"@),
        SplitArgView::Plain("-loglevel"@),
        SplitArgView::Plain("error"@),
        SplitArgView::Plain("-i"@),
        SplitArgView::InWorkspace(name),
        SplitArgView::Plain("-t"@),
        SplitArgView::Plain(text::decimal(minutes * 60)),
        SplitArgView::Plain("-c"@),
        SplitArgView::Plain("copy"@),
        SplitArgView::InWorkspace(trimmed_name(ext)),
    ]
}

/// Builds the arguments with which `ffmpeg` trims a segment.
pub fn trim_args(name: &str, minutes: u32, ext: &str) -> (r: Vec<SplitArg>)
    ensures
        r.deep_view() == trim_args_of(name@, minutes as nat, ext@),
{
    let mut r: Vec<SplitArg> = Vec::new();
    r.push(plain("-hide_banner"));
    r.push(plain("-loglevel"));
    r.push(plain("error"));
    r.push(plain("-i"));
    r.push(SplitArg::InWorkspace(name.to_owned()));
    r.push(plain("-t"));
    r.push(SplitArg::Plain(text::decimal_text(minutes as u64 * 60)));
    r.push(plain("-c"));
    r.push(plain("copy"));
    r.push(SplitArg::InWorkspace(trimmed_file_name(ext)));
    assert(r.deep_view() =~= trim_args_of(name@, minutes as nat, ext@));
    r
}

// ---------------------------------------------------------------------------
// Laws
// ---------------------------------------------------------------------------

/// The names of the first `n` segments, in numeric order.
pub open spec fn segment_names(n: nat, ext: Seq<char>) -> Seq<Seq<char>> {
    Seq::new(n, |i: int| chunk_name(i as nat, ext))
}

/// The number of a segment is read back from its name, and its name is
/// recognised as that of a segment.
pub proof fn lemma_chunk_name_number(index: nat, ext: Seq<char>)
    requires
        index <= u64::MAX,
    ensures
        chunk_number(chunk_name(index, ext)) == Some(index),
        is_chunk(chunk_name(index, ext), ext),
{
    reveal_strlit("chunk_");
    reveal_strlit(".");
    let name = chunk_name(index, ext);
    let digits = text::decimal3(index);
    text::lemma_decimal3_value(index);
    assert(name.skip(6) =~= digits + ("."@ + ext));
    text::lemma_digit_run(digits, "."@ + ext);
    assert(name.subrange(0, 6) =~= chunk_prefix());
    assert(name.subrange(name.len() - ext.len() - 1, name.len() as int) =~= "."@ + ext);
}

/// The stored episode is not taken for a segment.
pub proof fn lemma_episode_is_no_chunk(ext: Seq<char>)
    ensures
        !is_chunk(episode_name(ext), ext),
{
    reveal_strlit("chunk_");
    reveal_strlit("episode.");
    let name = episode_name(ext);
    assert(name[0] == 'e');
    if text::begins(name, chunk_prefix()) {
        assert(name.subrange(0, 6)[0] == 'c');
    }
}

/// Segments are ordered by their index, also where the index needs more digits
/// than the padding gives.
pub proof fn lemma_numeric_order(i: nat, j: nat, ext: Seq<char>)
    requires
        i <= u64::MAX,
        j <= u64::MAX,
    ensures
        i < j ==> chunk_le(chunk_name(i, ext), chunk_name(j, ext)) && !chunk_le(
            chunk_name(j, ext),
            chunk_name(i, ext),
        ),
{
    lemma_chunk_name_number(i, ext);
    lemma_chunk_name_number(j, ext);
}

/// A filter commutes with forgetting the order.
proof fn lemma_filter_multiset(s: Seq<Seq<char>>, pred: spec_fn(Seq<char>) -> bool)
    ensures
        s.filter(pred).to_multiset() == s.to_multiset().filter(pred),
    decreases s.len(),
{
    broadcast use vstd::multiset::group_multiset_axioms;
    broadcast use vstd::seq_lib::group_to_multiset_ensures;

    reveal(Seq::filter);
    if s.len() == 0 {
        assert(s.filter(pred).to_multiset() =~= s.to_multiset().filter(pred));
    } else {
        let init = s.drop_last();
        assert(s =~= init.push(s.last()));
        lemma_filter_multiset(init, pred);
        vstd::seq_lib::to_multiset_build(init, s.last());
        vstd::seq_lib::to_multiset_build(init.filter(pred), s.last());
        assert(s.filter(pred).to_multiset() =~= s.to_multiset().filter(pred));
    }
}

/// Every one of the first `n` segment names passes the filter for segments.
proof fn lemma_segments_kept(n: nat, ext: Seq<char>, k: nat)
    requires
        n <= u64::MAX,
        k <= n,
    ensures
        chunk_names(segment_names(n, ext).take(k as int), ext) == segment_names(n, ext).take(
            k as int,
        ),
    decreases k,
{
    reveal(Seq::filter);
    let all = segment_names(n, ext);
    if k > 0 {
        lemma_segments_kept(n, ext, (k - 1) as nat);
        assert(all.take(k as int).drop_last() =~= all.take(k - 1));
        lemma_chunk_name_number((k - 1) as nat, ext);
        assert(all.take(k as int) =~= all.take(k - 1).push(all[k - 1]));
    }
}

/// However a directory lists the stored episode and its segments, the segments
/// that are picked out of it are all of them, in numeric order.
pub proof fn lemma_all_segments_in_numeric_order(names: Seq<Seq<char>>, n: nat, ext: Seq<char>)
    requires
        n <= u64::MAX,
        names.to_multiset() == segment_names(n, ext).push(episode_name(ext)).to_multiset(),
    ensures
        ordered_chunks(names, ext) == segment_names(n, ext),
{
    let pred = |name: Seq<char>| is_chunk(name, ext);
    let all = segment_names(n, ext);
    let listed = all.push(episode_name(ext));
    lemma_filter_multiset(names, pred);
    lemma_filter_multiset(listed, pred);
    assert(listed.drop_last() =~= all);
    assert(listed.filter(pred) == all.filter(pred)) by {
        reveal(Seq::filter);
        lemma_episode_is_no_chunk(ext);
    }
    lemma_segments_kept(n, ext, n);
    assert(all.take(n as int) =~= all);
    assert(sorted_by(all, chunk_order())) by {
        let r = chunk_order();
        assert forall|i: int, j: int| 0 <= i < j < all.len() implies #[trigger] r(all[i], all[j]) by {
            lemma_numeric_order(i as nat, j as nat, ext);
        }
    }
    lemma_chunk_order_is_total();
    chunk_names(names, ext).lemma_sort_by_ensures(chunk_order());
    vstd::seq_lib::lemma_sorted_unique(ordered_chunks(names, ext), all, chunk_order());
}

/// The segments that are transcribed are enough for all the audio that a limit
/// allows, and one full segment fewer would not be.
pub proof fn lemma_chunk_limit(max_minutes: nat)
    ensures
        max_minutes <= chunk_limit(max_minutes) * SEGMENT_MINUTES < max_minutes + SEGMENT_MINUTES,
{
}

/// The minutes that a limit has room for in each of the first `n` segments.
pub open spec fn room_in_first(n: nat, max_minutes: nat) -> nat
    decreases n,
{
    if n == 0 {
        0
    } else {
        room_in_first((n - 1) as nat, max_minutes) + room_for((n - 1) as nat, max_minutes)
    }
}

/// However many segments there are, a limit has room for no more minutes than it
/// says; and it has room for all of the first segments up to that.
pub proof fn lemma_room_in_first(n: nat, max_minutes: nat)
    ensures
        room_in_first(n, max_minutes) == if n * SEGMENT_MINUTES <= max_minutes {
            n * SEGMENT_MINUTES
        } else {
            max_minutes as int
        },
    decreases n,
{
    if n > 0 {
        lemma_room_in_first((n - 1) as nat, max_minutes);
    }
}

/// A segment within the limit has room for at least a minute; only the last one
/// within the limit can have room for less than all of it.
pub proof fn lemma_room_within_limit(index: nat, max_minutes: nat)
    ensures
        index < chunk_limit(max_minutes) <==> room_for(index, max_minutes) > 0,
        index + 1 < chunk_limit(max_minutes) ==> room_for(index, max_minutes) == SEGMENT_MINUTES,
        room_for(index, max_minutes) <= SEGMENT_MINUTES,
{
}

/// A segment is named `chunk_`, its number in at least three digits, a dot and the
/// extension; the episode is named `episode`, a dot and the extension.
pub proof fn lemma_file_names(index: nat, ext: Seq<char>)
    ensures
        chunk_name(index, ext) == "chunk_"@ + text::decimal3(index) + "."@ + ext,
        episode_name(ext) == "episode."@ + ext,
        trimmed_name(ext) == "trimmed."@ + ext,
{
}

/// The files that are taken for segments are those whose name is `chunk_`, then
/// anything, then a dot and the extension.
pub proof fn lemma_is_chunk(name: Seq<char>, middle: Seq<char>, ext: Seq<char>)
    ensures
        is_chunk("chunk_"@ + middle + "."@ + ext, ext),
        is_chunk(name, ext) ==> name.len() >= 7 + ext.len() && name == "chunk_"@ + name.subrange(
            6,
            name.len() - ext.len() - 1,
        ) + "."@ + ext,
{
    reveal_strlit("chunk_");
    reveal_strlit(".");
    let made = "chunk_"@ + middle + "."@ + ext;
    assert(made.subrange(0, 6) =~= "chunk_"@);
    assert(made.subrange(made.len() - ext.len() - 1, made.len() as int) =~= "."@ + ext);
    if is_chunk(name, ext) {
        let at = name.len() - ext.len() - 1;
        assert(name.subrange(0, 6) == "chunk_"@);
        assert(name.subrange(at, name.len() as int) == "."@ + ext);
        assert(name.subrange(at, name.len() as int)[0] == name[at]);
        assert(name[at] == '.');
        if at < 6 {
            assert(name.subrange(0, 6)[at] == name[at]);
            assert("chunk_"@[at] != '.');
        }
        assert(name =~= name.subrange(0, 6) + name.subrange(6, at) + name.subrange(
            at,
            name.len() as int,
        ));
        assert(name =~= "chunk_"@ + name.subrange(6, at) + "."@ + ext);
    }
}

/// The number of a segment is that of the digits that follow the prefix.
pub proof fn lemma_number(digits: Seq<char>, rest: Seq<char>)
    requires
        forall|i: int| 0 <= i < digits.len() ==> '0' <= #[trigger] digits[i] <= '9',
        rest.len() > 0 ==> !('0' <= rest[0] <= '9'),
    ensures
        digits.len() > 0 && text::decimal_value(digits) <= u64::MAX ==> chunk_number(
            "chunk_"@ + digits + rest,
        ) == Some(text::decimal_value(digits)),
        digits.len() == 0 ==> chunk_number("chunk_"@ + digits + rest) is None,
{
    reveal_strlit("chunk_");
    let name = "chunk_"@ + digits + rest;
    assert(name.subrange(0, 6) =~= "chunk_"@);
    assert(name.skip(6) =~= digits + rest);
    text::lemma_digits(digits, '0', rest);
}

/// Numbers decide the order of two segments; a segment with a number comes before
/// one without; and the names decide where the numbers do not.
pub proof fn lemma_order(a: Seq<char>, b: Seq<char>)
    ensures
        match (chunk_number(a), chunk_number(b)) {
            (Some(m), Some(n)) => {
                &&& m < n ==> chunk_le(a, b) && !chunk_le(b, a)
                &&& m == n ==> (chunk_le(a, b) <==> text::lex_le(a, b))
            },
            (Some(_), None) => chunk_le(a, b) && !chunk_le(b, a),
            (None, Some(_)) => chunk_le(b, a) && !chunk_le(a, b),
            (None, None) => chunk_le(a, b) <==> text::lex_le(a, b),
        },
{
}

/// Every file that is named like a segment is collected as often as it is listed,
/// nothing else is, and what is collected is in order.
pub proof fn lemma_collected(names: Seq<Seq<char>>, ext: Seq<char>, name: Seq<char>)
    ensures
        ordered_chunks(names, ext).to_multiset().count(name) == if is_chunk(name, ext) {
            names.to_multiset().count(name)
        } else {
            0
        },
        forall|i: int, j: int|
            0 <= i < j < ordered_chunks(names, ext).len() ==> chunk_le(
                #[trigger] ordered_chunks(names, ext)[i],
                #[trigger] ordered_chunks(names, ext)[j],
            ),
{
    broadcast use vstd::multiset::group_multiset_axioms;

    let pred = |name: Seq<char>| is_chunk(name, ext);
    lemma_filter_multiset(names, pred);
    lemma_chunk_order_is_total();
    chunk_names(names, ext).lemma_sort_by_ensures(chunk_order());
    let all = ordered_chunks(names, ext);
    let r = chunk_order();
    assert forall|i: int, j: int| 0 <= i < j < all.len() implies chunk_le(
        #[trigger] all[i],
        #[trigger] all[j],
    ) by {
        assert(r(all[i], all[j]));
    }
}

/// The splitting command reads the stored episode and writes numbered segments of
/// ten minutes, whatever the extension: it differs in the two file names only.
pub proof fn lemma_split_args(ext: Seq<char>, other: Seq<char>)
    ensures
        split_args_of(ext).len() == 14,
        split_args_of(ext)[4] == SplitArgView::InWorkspace("episode."@ + ext),
        split_args_of(ext)[13] == SplitArgView::InWorkspace("chunk_%03d."@ + ext),
        split_args_of(ext)[3] == SplitArgView::Plain("-i"@),
        split_args_of(ext)[7] == SplitArgView::Plain("-segment_time"@),
        split_args_of(ext)[8] == SplitArgView::Plain("600"@),
        split_args_of(ext)[9] == SplitArgView::Plain("-c"@),
        split_args_of(ext)[10] == SplitArgView::Plain("copy"@),
        forall|i: int|
            0 <= i < 14 && i != 4 && i != 13 ==> split_args_of(ext)[i] == #[trigger] split_args_of(
                other,
            )[i],
{
    reveal_strlit("600");
    reveal_with_fuel(text::decimal, 3);
    assert(text::decimal(600) =~= "600"@);
}

/// The trimming command keeps the first minutes of a segment, whatever they and
/// the names are.
pub proof fn lemma_trim_args(
    name: Seq<char>,
    minutes: nat,
    ext: Seq<char>,
    other_name: Seq<char>,
    other_minutes: nat,
    other_ext: Seq<char>,
)
    ensures
        trim_args_of(name, minutes, ext).len() == 10,
        trim_args_of(name, minutes, ext)[3] == SplitArgView::Plain("-i"@),
        trim_args_of(name, minutes, ext)[4] == SplitArgView::InWorkspace(name),
        trim_args_of(name, minutes, ext)[5] == SplitArgView::Plain("-t"@),
        trim_args_of(name, minutes, ext)[6] == SplitArgView::Plain(text::decimal(60 * minutes)),
        trim_args_of(name, minutes, ext)[9] == SplitArgView::InWorkspace("trimmed."@ + ext),
        forall|i: int|
            0 <= i < 10 && i != 4 && i != 6 && i != 9 ==> trim_args_of(name, minutes, ext)[i]
                == #[trigger] trim_args_of(other_name, other_minutes, other_ext)[i],
{
}

/// A name without the prefix has no number, and neither has one whose number does
/// not fit 64 bits.
pub proof fn lemma_no_number(name: Seq<char>, digits: Seq<char>, rest: Seq<char>)
    requires
        forall|i: int| 0 <= i < digits.len() ==> '0' <= #[trigger] digits[i] <= '9',
        rest.len() > 0 ==> !('0' <= rest[0] <= '9'),
        text::decimal_value(digits) > u64::MAX,
    ensures
        name.len() < 6 || name.take(6) != "chunk_"@ ==> chunk_number(name) is None,
        chunk_number("chunk_"@ + digits + rest) is None,
{
    reveal_strlit("chunk_");
    text::lemma_begins_and_ends(name, "chunk_"@);
    let long = "chunk_"@ + digits + rest;
    assert(long.skip(6) =~= digits + rest);
    text::lemma_digits(digits, '0', rest);
}

} // verus!
