//! Text: characters, separators, white space, lines, searching and numbers.
use vstd::prelude::*;
use vstd::utf8::*;

verus! {

/// Whether `c` has the Unicode `White_Space` property.
pub open spec fn is_white_space(c: char) -> bool {
    ||| '\u{9}' <= c <= '\u{d}'
    ||| c == ' '
    ||| c == '\u{85}'
    ||| c == '\u{a0}'
    ||| c == '\u{1680}'
    ||| '\u{2000}' <= c <= '\u{200a}'
    ||| c == '\u{2028}'
    ||| c == '\u{2029}'
    ||| c == '\u{202f}'
    ||| c == '\u{205f}'
    ||| c == '\u{3000}'
}

/// Tests a character for the `White_Space` property.
pub fn white_space(c: char) -> (r: bool)
    ensures
        r == is_white_space(c),
{
    ('\u{9}' <= c && c <= '\u{d}') || c == ' ' || c == '\u{85}' || c == '\u{a0}' || c == '\u{1680}'
        || ('\u{2000}' <= c && c <= '\u{200a}') || c == '\u{2028}' || c == '\u{2029}'
        || c == '\u{202f}' || c == '\u{205f}' || c == '\u{3000}'
}

/// The characters of a string, in order.
pub fn chars_of(s: &str) -> (r: Vec<char>)
    ensures
        r@ == s@,
{
    let mut out: Vec<char> = Vec::new();
    for c in it: s.chars()
        invariant
            it.seq() == s@,
            out@ == s@.take(it.index() as int),
    {
        out.push(c);
    }
    out
}

// ---------------------------------------------------------------------------
// Cutting a string between two characters
// ---------------------------------------------------------------------------

/// The encoding of a concatenation is the concatenation of the encodings.
proof fn lemma_encode_concat(a: Seq<char>, b: Seq<char>)
    ensures
        encode_utf8(a + b) == encode_utf8(a) + encode_utf8(b),
    decreases a.len(),
{
    if a.len() == 0 {
        assert(a + b =~= b);
    } else {
        assert((a + b).drop_first() =~= a.drop_first() + b);
        lemma_encode_concat(a.drop_first(), b);
        assert(encode_utf8(a + b) =~= encode_utf8(a) + encode_utf8(b));
    }
}

/// The place between the encodings of two parts is a character boundary.
proof fn lemma_boundary_between(a: Seq<char>, b: Seq<char>)
    ensures
        is_char_boundary(encode_utf8(a + b), encode_utf8(a).len() as int),
{
    let bytes = encode_utf8(a + b);
    let at = encode_utf8(a).len() as int;
    encode_utf8_valid_utf8(a + b);
    lemma_encode_concat(a, b);
    if b.len() == 0 {
        is_char_boundary_start_end_of_seq(bytes);
    } else {
        encode_utf8_first_scalar(b);
        assert(bytes[at] == encode_utf8(b)[0]);
        is_char_boundary_iff_not_is_continuation_byte(bytes, at);
    }
}

/// One more character makes a prefix longer by the width of that character,
/// and no prefix is longer than the whole.
proof fn lemma_prefix_width(s: Seq<char>, n: int)
    requires
        0 <= n <= s.len(),
    ensures
        encode_utf8(s.take(n)).len() <= encode_utf8(s).len(),
        n < s.len() ==> encode_utf8(s.take(n + 1)).len() == encode_utf8(s.take(n)).len()
            + encode_scalar(s[n] as u32).len(),
        n < s.len() ==> encode_utf8(s.take(n + 1)).len() <= encode_utf8(s).len(),
{
    assert(s.take(n) + s.skip(n) =~= s);
    lemma_encode_concat(s.take(n), s.skip(n));
    if n < s.len() {
        let one = seq![s[n]];
        assert(s.take(n + 1) =~= s.take(n) + one);
        lemma_encode_concat(s.take(n), one);
        assert(one.drop_first() =~= Seq::<char>::empty());
        reveal_with_fuel(encode_utf8, 2);
        assert(encode_utf8(one) =~= encode_scalar(s[n] as u32));
        assert(s.take(n + 1) + s.skip(n + 1) =~= s);
        lemma_encode_concat(s.take(n + 1), s.skip(n + 1));
    }
}

/// The number of bytes that encode a character.
fn width(c: char) -> (r: usize)
    ensures
        r == encode_scalar(c as u32).len(),
{
    let code: u32 = c as u32;
    if code <= 0x7f {
        1
    } else if code <= 0x7ff {
        2
    } else if code <= 0xffff {
        3
    } else {
        4
    }
}

/// Cuts a string at a byte offset that lies after its first `n` characters.
fn cut<'a>(s: &'a str, offset: usize, Ghost(n): Ghost<int>) -> (r: (&'a str, &'a str))
    requires
        0 <= n <= s@.len(),
        offset == encode_utf8(s@.take(n)).len(),
    ensures
        r.0@ == s@.take(n),
        r.1@ == s@.skip(n),
{
    proof {
        assert(s@.take(n) + s@.skip(n) =~= s@);
        lemma_boundary_between(s@.take(n), s@.skip(n));
        lemma_encode_concat(s@.take(n), s@.skip(n));
    }
    let r = s.split_at(offset);
    proof {
        assert(encode_utf8(r.0@) =~= encode_utf8(s@.take(n)));
        assert(encode_utf8(r.1@) =~= encode_utf8(s@.skip(n)));
        encode_utf8_decode_utf8(s@.take(n));
        encode_utf8_decode_utf8(s@.skip(n));
        encode_utf8_decode_utf8(r.0@);
        encode_utf8_decode_utf8(r.1@);
    }
    r
}

// ---------------------------------------------------------------------------
// Separators
// ---------------------------------------------------------------------------

/// The position of the first `c` in `s`, or the length of `s` where there is none.
pub open spec fn first_index(s: Seq<char>, c: char) -> int
    decreases s.len(),
{
    if s.len() == 0 || s[0] == c {
        0
    } else {
        1 + first_index(s.drop_first(), c)
    }
}

/// One past the position of the last `c` in `s`, or 0 where there is none.
pub open spec fn last_end(s: Seq<char>, c: char) -> int
    decreases s.len(),
{
    if s.len() == 0 || s.last() == c {
        s.len() as int
    } else {
        last_end(s.drop_last(), c)
    }
}

/// The part of `s` before the first `c`; all of `s` where there is none.
pub open spec fn before_first(s: Seq<char>, c: char) -> Seq<char> {
    s.take(first_index(s, c))
}

/// The part of `s` after the last `c`; all of `s` where there is none.
pub open spec fn after_last(s: Seq<char>, c: char) -> Seq<char> {
    s.skip(last_end(s, c))
}

/// `first_index` is the one position with no `c` before it and a `c`, or the
/// end, at it.
pub proof fn lemma_first_index(s: Seq<char>, c: char, n: int)
    requires
        0 <= n <= s.len(),
        forall|i: int| 0 <= i < n ==> s[i] != c,
        n == s.len() || s[n] == c,
    ensures
        first_index(s, c) == n,
    decreases s.len(),
{
    if n > 0 {
        lemma_first_index(s.drop_first(), c, n - 1);
    }
}

/// What `first_index` returns: no `c` stands before it, and it is the end or
/// a `c` stands there.
pub proof fn lemma_first_index_is_first(s: Seq<char>, c: char)
    ensures
        0 <= first_index(s, c) <= s.len(),
        forall|i: int| 0 <= i < first_index(s, c) ==> s[i] != c,
        first_index(s, c) == s.len() || s[first_index(s, c)] == c,
    decreases s.len(),
{
    if s.len() > 0 && s[0] != c {
        lemma_first_index_is_first(s.drop_first(), c);
        assert forall|i: int| 0 <= i < first_index(s, c) implies s[i] != c by {
            if i > 0 {
                assert(s[i] == s.drop_first()[i - 1]);
            }
        }
    }
}

/// `last_end` is the one position with no `c` at or after it and a `c`, or the
/// beginning, before it.
pub proof fn lemma_last_end(s: Seq<char>, c: char, n: int)
    requires
        0 <= n <= s.len(),
        forall|i: int| n <= i < s.len() ==> s[i] != c,
        n == 0 || s[n - 1] == c,
    ensures
        last_end(s, c) == n,
    decreases s.len(),
{
    if n < s.len() {
        lemma_last_end(s.drop_last(), c, n);
    }
}

/// What `last_end` returns: no `c` stands at or after it, and it is the
/// beginning or a `c` stands before it.
pub proof fn lemma_last_end_is_last(s: Seq<char>, c: char)
    ensures
        0 <= last_end(s, c) <= s.len(),
        forall|i: int| last_end(s, c) <= i < s.len() ==> s[i] != c,
        last_end(s, c) == 0 || s[last_end(s, c) - 1] == c,
    decreases s.len(),
{
    if s.len() > 0 && s.last() != c {
        lemma_last_end_is_last(s.drop_last(), c);
        assert forall|i: int| last_end(s, c) <= i < s.len() implies s[i] != c by {
            if i < s.len() - 1 {
                assert(s[i] == s.drop_last()[i]);
            }
        }
    }
}

/// Splits a string at the first `sep`, which neither part keeps.
pub fn split_once<'a>(s: &'a str, sep: char) -> (r: Option<(&'a str, &'a str)>)
    ensures
        match r {
            Some((head, rest)) => {
                &&& first_index(s@, sep) < s@.len()
                &&& head@ == s@.take(first_index(s@, sep))
                &&& rest@ == s@.skip(first_index(s@, sep) + 1)
            },
            None => first_index(s@, sep) == s@.len(),
        },
{
    let total: usize = s.as_bytes().len();
    let mut offset: usize = 0;
    for c in it: s.chars()
        invariant
            it.seq() == s@,
            total == encode_utf8(s@).len(),
            offset == encode_utf8(s@.take(it.index() as int)).len(),
            forall|i: int| 0 <= i < it.index() ==> s@[i] != sep,
    {
        let ghost n = it.index() as int;
        proof {
            lemma_prefix_width(s@, n);
        }
        if c == sep {
            proof {
                lemma_first_index(s@, sep, n);
            }
            let (head, tail) = cut(s, offset, Ghost(n));
            proof {
                lemma_prefix_width(tail@, 0);
                assert(tail@.take(0) =~= Seq::<char>::empty());
                assert(tail@.skip(1) =~= s@.skip(n + 1));
            }
            let (_, rest) = cut(tail, width(sep), Ghost(1int));
            return Some((head, rest));
        }
        offset = offset + width(c);
    }
    proof {
        lemma_first_index(s@, sep, s@.len() as int);
    }
    None
}

/// The part of a string before the first `sep`, or all of it.
pub fn head_of<'a>(s: &'a str, sep: char) -> (r: &'a str)
    ensures
        r@ == before_first(s@, sep),
{
    match split_once(s, sep) {
        Some((head, _)) => head,
        None => {
            assert(s@.take(s@.len() as int) =~= s@);
            s
        },
    }
}

/// The part of a string after the last `sep`, or all of it.
pub fn tail_of<'a>(s: &'a str, sep: char) -> (r: &'a str)
    ensures
        r@ == after_last(s@, sep),
{
    let total: usize = s.as_bytes().len();
    let mut offset: usize = 0;
    let mut after: usize = 0;
    let ghost mut last: int = 0;
    for c in it: s.chars()
        invariant
            it.seq() == s@,
            total == encode_utf8(s@).len(),
            offset == encode_utf8(s@.take(it.index() as int)).len(),
            0 <= last <= it.index(),
            after == encode_utf8(s@.take(last)).len(),
            last == 0 || s@[last - 1] == sep,
            forall|i: int| last <= i < it.index() ==> s@[i] != sep,
    {
        proof {
            lemma_prefix_width(s@, it.index() as int);
        }
        offset = offset + width(c);
        if c == sep {
            after = offset;
            proof {
                last = it.index() + 1;
            }
        }
    }
    proof {
        lemma_last_end(s@, sep, last);
    }
    cut(s, after, Ghost(last)).1
}

// ---------------------------------------------------------------------------
// Trimming and lines
// ---------------------------------------------------------------------------

/// `s` without the white space at its two ends.
pub open spec fn trimmed(s: Seq<char>) -> Seq<char>
    decreases s.len(),
{
    if s.len() == 0 {
        s
    } else if is_white_space(s[0]) {
        trimmed(s.drop_first())
    } else if is_white_space(s.last()) {
        trimmed(s.drop_last())
    } else {
        s
    }
}

/// A part that has only white space around it, and none at its own ends, is
/// the trimmed text.
proof fn lemma_trimmed_is_core(s: Seq<char>, from: int, to: int)
    requires
        0 <= from <= to <= s.len(),
        forall|i: int| 0 <= i < from ==> is_white_space(s[i]),
        forall|i: int| to <= i < s.len() ==> is_white_space(s[i]),
        from < to ==> !is_white_space(s[from]) && !is_white_space(s[to - 1]),
    ensures
        trimmed(s) == s.subrange(from, to),
    decreases s.len(),
{
    if s.len() == 0 {
        assert(s.subrange(from, to) =~= s);
    } else if is_white_space(s[0]) {
        if from > 0 {
            lemma_trimmed_is_core(s.drop_first(), from - 1, to - 1);
            assert(s.drop_first().subrange(from - 1, to - 1) =~= s.subrange(from, to));
        } else {
            assert(to == 0);
            assert forall|i: int| 0 <= i < s.drop_first().len() implies is_white_space(
                s.drop_first()[i],
            ) by {
                assert(s.drop_first()[i] == s[i + 1]);
            }
            lemma_trimmed_is_core(s.drop_first(), 0, 0);
            assert(s.drop_first().subrange(0, 0) =~= s.subrange(from, to));
        }
    } else if is_white_space(s.last()) {
        assert(from == 0);
        assert(to < s.len());
        lemma_trimmed_is_core(s.drop_last(), from, to);
        assert(s.drop_last().subrange(from, to) =~= s.subrange(from, to));
    } else {
        assert(from == 0 && to == s.len());
        assert(s.subrange(from, to) =~= s);
    }
}

/// Trimmed text neither begins nor ends with white space.
pub proof fn lemma_trimmed_ends(s: Seq<char>)
    ensures
        trimmed(s).len() > 0 ==> !is_white_space(trimmed(s)[0]) && !is_white_space(
            trimmed(s).last(),
        ),
        trimmed(trimmed(s)) == trimmed(s),
    decreases s.len(),
{
    if s.len() > 0 {
        if is_white_space(s[0]) {
            lemma_trimmed_ends(s.drop_first());
        } else if is_white_space(s.last()) {
            lemma_trimmed_ends(s.drop_last());
        }
    }
}

/// Whether `s` has nothing but white space.
pub open spec fn is_blank(s: Seq<char>) -> bool {
    trimmed(s).len() == 0
}

/// Text with a character that is no white space is not blank.
pub proof fn lemma_not_blank(s: Seq<char>, i: int)
    requires
        0 <= i < s.len(),
        !is_white_space(s[i]),
    ensures
        !is_blank(s),
    decreases s.len(),
{
    if is_white_space(s[0]) {
        assert(s.drop_first()[i - 1] == s[i]);
        lemma_not_blank(s.drop_first(), i - 1);
    } else if is_white_space(s.last()) {
        assert(s.drop_last()[i] == s[i]);
        lemma_not_blank(s.drop_last(), i);
    }
}

/// Cuts the white space off both ends of a string.
pub fn trim<'a>(s: &'a str) -> (r: &'a str)
    ensures
        r@ == trimmed(s@),
{
    let total: usize = s.as_bytes().len();
    let mut offset: usize = 0;
    let mut started: bool = false;
    let mut start: usize = 0;
    let mut end: usize = 0;
    let ghost mut from: int = 0;
    let ghost mut to: int = 0;
    for c in it: s.chars()
        invariant
            it.seq() == s@,
            total == encode_utf8(s@).len(),
            offset == encode_utf8(s@.take(it.index() as int)).len(),
            0 <= from <= to <= it.index(),
            start == encode_utf8(s@.take(from)).len(),
            end == encode_utf8(s@.take(to)).len(),
            started == (from < to),
            !started ==> from == 0 && to == 0,
            forall|i: int| 0 <= i < from ==> is_white_space(s@[i]),
            forall|i: int| to <= i < it.index() ==> is_white_space(s@[i]),
            started ==> !is_white_space(s@[from]) && !is_white_space(s@[to - 1]),
    {
        let ghost n = it.index() as int;
        proof {
            lemma_prefix_width(s@, n);
        }
        let next: usize = offset + width(c);
        if !white_space(c) {
            if !started {
                started = true;
                start = offset;
                proof {
                    from = n;
                }
            }
            end = next;
            proof {
                to = n + 1;
            }
        }
        offset = next;
    }
    proof {
        lemma_trimmed_is_core(s@, from, to);
        assert(s@.take(to).skip(from) =~= s@.subrange(from, to));
        assert(s@.take(to).take(from) =~= s@.take(from));
    }
    let (head, _) = cut(s, end, Ghost(to));
    cut(head, start, Ghost(from)).1
}

/// The lines of `s`: what newlines end, and what is left after the last one.
pub open spec fn lines(s: Seq<char>) -> Seq<Seq<char>>
    decreases s.len(),
    via lines_decreases
{
    let n = first_index(s, '\n');
    if s.len() == 0 {
        Seq::empty()
    } else if n < s.len() {
        seq![s.take(n)] + lines(s.skip(n + 1))
    } else {
        seq![s]
    }
}

#[via_fn]
proof fn lines_decreases(s: Seq<char>) {
    lemma_first_index_is_first(s, '\n');
}

// ---------------------------------------------------------------------------
// Searching and comparing
// ---------------------------------------------------------------------------

/// Whether `pattern` stands in `s` at position `at`.
pub open spec fn stands_at(s: Seq<char>, pattern: Seq<char>, at: int) -> bool {
    0 <= at && at + pattern.len() <= s.len() && s.subrange(at, at + pattern.len()) == pattern
}

/// Whether `pattern` occurs anywhere in `s`.
pub open spec fn occurs(s: Seq<char>, pattern: Seq<char>) -> bool {
    exists|at: int| #[trigger] stands_at(s, pattern, at)
}

/// Whether `s` begins with `prefix`.
pub open spec fn begins(s: Seq<char>, prefix: Seq<char>) -> bool {
    stands_at(s, prefix, 0)
}

/// Whether `s` ends with `suffix`.
pub open spec fn ends(s: Seq<char>, suffix: Seq<char>) -> bool {
    stands_at(s, suffix, s.len() - suffix.len())
}

/// Compares `pattern` with the characters of `s` from `at` on.
fn found_at(s: &Vec<char>, pattern: &Vec<char>, at: usize) -> (r: bool)
    requires
        at <= s@.len(),
    ensures
        r == stands_at(s@, pattern@, at as int),
{
    if s.len() - at < pattern.len() {
        return false;
    }
    let mut i: usize = 0;
    while i < pattern.len()
        invariant
            i <= pattern@.len(),
            at + pattern.len() <= s.len(),
            forall|j: int| 0 <= j < i ==> s@[at + j] == pattern@[j],
        decreases pattern@.len() - i,
    {
        if s[at + i] != pattern[i] {
            assert(s@.subrange(at as int, at + pattern@.len())[i as int] != pattern@[i as int]);
            return false;
        }
        i = i + 1;
    }
    assert(s@.subrange(at as int, at + pattern@.len()) =~= pattern@);
    true
}

/// Tests whether `pattern` occurs in `s`.
pub fn contains(s: &str, pattern: &str) -> (r: bool)
    ensures
        r == occurs(s@, pattern@),
{
    let hay = chars_of(s);
    let needle = chars_of(pattern);
    let mut at: usize = 0;
    while at < hay.len()
        invariant
            hay@ == s@,
            needle@ == pattern@,
            at <= hay@.len(),
            forall|j: int| 0 <= j < at ==> !stands_at(s@, pattern@, j),
        decreases hay@.len() - at,
    {
        if found_at(&hay, &needle, at) {
            return true;
        }
        at = at + 1;
    }
    found_at(&hay, &needle, at)
}

/// Tests whether `s` begins with `prefix`.
pub fn starts_with(s: &str, prefix: &str) -> (r: bool)
    ensures
        r == begins(s@, prefix@),
{
    found_at(&chars_of(s), &chars_of(prefix), 0)
}

/// Tests whether `s` ends with `suffix`.
pub fn ends_with(s: &str, suffix: &str) -> (r: bool)
    ensures
        r == ends(s@, suffix@),
{
    let whole = chars_of(s);
    let tail = chars_of(suffix);
    if whole.len() < tail.len() {
        return false;
    }
    found_at(&whole, &tail, whole.len() - tail.len())
}

/// Tests whether two strings hold the same characters.
pub fn same_text(a: &str, b: &str) -> (r: bool)
    ensures
        r == (a@ == b@),
{
    let left = chars_of(a);
    let right = chars_of(b);
    let r = left.len() == right.len() && found_at(&left, &right, 0);
    proof {
        assert(a@.subrange(0, a@.len() as int) =~= a@);
    }
    r
}

/// Tests whether two byte strings are the same.
pub fn same_bytes(a: &[u8], b: &[u8]) -> (r: bool)
    ensures
        r == (a@ == b@),
{
    if a.len() != b.len() {
        return false;
    }
    let mut i: usize = 0;
    while i < a.len()
        invariant
            a@.len() == b@.len(),
            i <= a@.len(),
            forall|j: int| 0 <= j < i ==> a@[j] == b@[j],
        decreases a@.len() - i,
    {
        if a[i] != b[i] {
            return false;
        }
        i = i + 1;
    }
    assert(a@ =~= b@);
    true
}

/// Whether `a` is at or before `b` by the order of their characters.
pub open spec fn lex_le(a: Seq<char>, b: Seq<char>) -> bool
    decreases a.len(),
{
    if a.len() == 0 {
        true
    } else if b.len() == 0 {
        false
    } else if a[0] != b[0] {
        a[0] < b[0]
    } else {
        lex_le(a.drop_first(), b.drop_first())
    }
}

/// The order of characters is reflexive.
pub proof fn lemma_lex_reflexive(a: Seq<char>)
    ensures
        lex_le(a, a),
    decreases a.len(),
{
    if a.len() > 0 {
        lemma_lex_reflexive(a.drop_first());
    }
}

/// Texts that are at or before each other are the same.
pub proof fn lemma_lex_antisymmetric(a: Seq<char>, b: Seq<char>)
    requires
        lex_le(a, b),
        lex_le(b, a),
    ensures
        a == b,
    decreases a.len(),
{
    if a.len() > 0 && b.len() > 0 {
        lemma_lex_antisymmetric(a.drop_first(), b.drop_first());
        assert(a =~= seq![a[0]] + a.drop_first());
        assert(b =~= seq![b[0]] + b.drop_first());
    } else {
        assert(a =~= b);
    }
}

/// Of two texts one is at or before the other.
pub proof fn lemma_lex_connected(a: Seq<char>, b: Seq<char>)
    ensures
        lex_le(a, b) || lex_le(b, a),
    decreases a.len(),
{
    if a.len() > 0 && b.len() > 0 {
        lemma_lex_connected(a.drop_first(), b.drop_first());
    }
}

/// The order of characters is transitive.
pub proof fn lemma_lex_transitive(a: Seq<char>, b: Seq<char>, c: Seq<char>)
    requires
        lex_le(a, b),
        lex_le(b, c),
    ensures
        lex_le(a, c),
    decreases a.len(),
{
    if a.len() > 0 && b.len() > 0 && c.len() > 0 && a[0] == b[0] && b[0] == c[0] {
        lemma_lex_transitive(a.drop_first(), b.drop_first(), c.drop_first());
    }
}

/// Compares two strings by the order of their characters.
pub fn at_or_before(a: &str, b: &str) -> (r: bool)
    ensures
        r == lex_le(a@, b@),
{
    let left = chars_of(a);
    let right = chars_of(b);
    assert(a@.skip(0) =~= a@);
    assert(b@.skip(0) =~= b@);
    let mut i: usize = 0;
    while i < left.len()
        invariant
            left@ == a@,
            right@ == b@,
            i <= left@.len(),
            i <= right@.len(),
            lex_le(a@, b@) == lex_le(a@.skip(i as int), b@.skip(i as int)),
        decreases left@.len() - i,
    {
        if i >= right.len() {
            return false;
        }
        proof {
            assert(a@.skip(i as int).drop_first() =~= a@.skip(i + 1));
            assert(b@.skip(i as int).drop_first() =~= b@.skip(i + 1));
        }
        if left[i] != right[i] {
            return left[i] < right[i];
        }
        i = i + 1;
    }
    true
}

/// Whether `c` is one of the ten ASCII digits.
pub open spec fn is_digit(c: char) -> bool {
    '0' <= c <= '9'
}

/// Whether every character of `s` is an ASCII digit.
pub open spec fn all_digits(s: Seq<char>) -> bool {
    forall|i: int| 0 <= i < s.len() ==> is_digit(#[trigger] s[i])
}

/// Tests whether every character of a string is an ASCII digit.
pub fn only_digits(s: &str) -> (r: bool)
    ensures
        r == all_digits(s@),
{
    for c in it: s.chars()
        invariant
            it.seq() == s@,
            forall|i: int| 0 <= i < it.index() ==> is_digit(#[trigger] s@[i]),
    {
        if !('0' <= c && c <= '9') {
            assert(!is_digit(s@[it.index() as int]));
            return false;
        }
    }
    true
}

/// The lower case of an ASCII letter; any other character itself.
pub open spec fn ascii_lower(c: char) -> char {
    if 'A' <= c <= 'Z' {
        ((c as u32) + 32) as char
    } else {
        c
    }
}

/// `s` with its ASCII letters in lower case.
pub open spec fn lowered(s: Seq<char>) -> Seq<char> {
    s.map_values(|c: char| ascii_lower(c))
}

/// Tests whether a string, with its ASCII letters in lower case, is `lower`.
pub fn lowers_to(s: &str, lower: &str) -> (r: bool)
    ensures
        r == (lowered(s@) == lower@),
{
    let from = chars_of(s);
    let to = chars_of(lower);
    if from.len() != to.len() {
        return false;
    }
    let mut i: usize = 0;
    while i < from.len()
        invariant
            from@ == s@,
            to@ == lower@,
            from@.len() == to@.len(),
            i <= from@.len(),
            forall|j: int| 0 <= j < i ==> ascii_lower(s@[j]) == lower@[j],
        decreases from@.len() - i,
    {
        let c: char = from[i];
        let l: char = if 'A' <= c && c <= 'Z' {
            ((c as u8) + 32u8) as char
        } else {
            c
        };
        assert(l == ascii_lower(c));
        if l != to[i] {
            assert(lowered(s@)[i as int] != lower@[i as int]);
            return false;
        }
        i = i + 1;
    }
    assert(lowered(s@) =~= lower@);
    true
}

// ---------------------------------------------------------------------------
// Decimal numbers
// ---------------------------------------------------------------------------

/// The ASCII digit with this value.
pub open spec fn digit(value: nat) -> char {
    (48 + value) as char
}

/// A number in decimal digits, without leading zeros.
pub open spec fn decimal(n: nat) -> Seq<char>
    decreases n,
{
    if n < 10 {
        seq![digit(n)]
    } else {
        decimal(n / 10).push(digit(n % 10))
    }
}

/// A number in at least three decimal digits.
pub open spec fn decimal3(n: nat) -> Seq<char> {
    if n < 10 {
        seq!['0', '0'] + decimal(n)
    } else if n < 100 {
        seq!['0'] + decimal(n)
    } else {
        decimal(n)
    }
}

/// The number that decimal digits stand for.
pub open spec fn decimal_value(digits: Seq<char>) -> nat
    decreases digits.len(),
{
    if digits.len() == 0 {
        0
    } else {
        (decimal_value(digits.drop_last()) * 10 + (digits.last() as u32 - 48)) as nat
    }
}

/// A number is read back from its digits.
pub proof fn lemma_decimal_value(n: nat)
    ensures
        decimal_value(decimal(n)) == n,
        all_digits(decimal(n)),
        decimal(n).len() > 0,
    decreases n,
{
    if n < 10 {
        assert(decimal(n).drop_last() =~= Seq::<char>::empty());
        assert(decimal_value(decimal(n).drop_last()) == 0);
    } else {
        lemma_decimal_value(n / 10);
        assert(decimal(n).drop_last() =~= decimal(n / 10));
    }
}

/// Leading zeros do not change the number that digits stand for.
pub proof fn lemma_leading_zero(digits: Seq<char>)
    ensures
        decimal_value(seq!['0'] + digits) == decimal_value(digits),
    decreases digits.len(),
{
    let padded = seq!['0'] + digits;
    if digits.len() == 0 {
        assert(padded.drop_last() =~= Seq::<char>::empty());
        assert(decimal_value(padded.drop_last()) == 0);
    } else {
        assert(padded.drop_last() =~= seq!['0'] + digits.drop_last());
        lemma_leading_zero(digits.drop_last());
    }
}

/// A number is read back from its padded digits.
pub proof fn lemma_decimal3_value(n: nat)
    ensures
        decimal_value(decimal3(n)) == n,
        all_digits(decimal3(n)),
        decimal3(n).len() > 0,
{
    lemma_decimal_value(n);
    if n < 10 {
        lemma_leading_zero(decimal(n));
        lemma_leading_zero(seq!['0'] + decimal(n));
        assert(decimal3(n) =~= seq!['0'] + (seq!['0'] + decimal(n)));
    } else if n < 100 {
        lemma_leading_zero(decimal(n));
    }
}

/// The text of a single digit.
fn digit_text(value: u64) -> (r: &'static str)
    requires
        value < 10,
    ensures
        r@ == seq![digit(value as nat)],
{
    proof {
        reveal_strlit("0");
        reveal_strlit("1");
        reveal_strlit("2");
        reveal_strlit("3");
        reveal_strlit("4");
        reveal_strlit("5");
        reveal_strlit("6");
        reveal_strlit("7");
        reveal_strlit("8");
        reveal_strlit("9");
    }
    let r = match value {
        0 => "0",
        1 => "1",
        2 => "2",
        3 => "3",
        4 => "4",
        5 => "5",
        6 => "6",
        7 => "7",
        8 => "8",
        _ => "9",
    };
    assert(r@ =~= seq![digit(value as nat)]);
    r
}

/// Writes a number in decimal digits.
pub fn decimal_text(n: u64) -> (r: String)
    ensures
        r@ == decimal(n as nat),
    decreases n,
{
    if n < 10 {
        digit_text(n).to_owned()
    } else {
        let mut r = decimal_text(n / 10);
        r.append(digit_text(n % 10));
        assert(r@ =~= decimal(n as nat));
        r
    }
}

/// Writes a number in at least three decimal digits.
pub fn decimal3_text(n: u64) -> (r: String)
    ensures
        r@ == decimal3(n as nat),
{
    let mut r = String::new();
    if n < 10 {
        r.append("00");
    } else if n < 100 {
        r.append("0");
    }
    r.append(decimal_text(n).as_str());
    proof {
        reveal_strlit("00");
        reveal_strlit("0");
        assert(r@ =~= decimal3(n as nat));
    }
    r
}

/// The digits that `s` begins with.
pub open spec fn digit_run(s: Seq<char>) -> Seq<char>
    decreases s.len(),
{
    if s.len() == 0 || !is_digit(s[0]) {
        Seq::empty()
    } else {
        seq![s[0]] + digit_run(s.drop_first())
    }
}

/// Digits that no further digit follows are the digits that the text begins with.
pub proof fn lemma_digit_run(digits: Seq<char>, rest: Seq<char>)
    requires
        all_digits(digits),
        rest.len() == 0 || !is_digit(rest[0]),
    ensures
        digit_run(digits + rest) == digits,
    decreases digits.len(),
{
    if digits.len() == 0 {
        assert(digits + rest =~= rest);
        assert(digit_run(rest) =~= digits);
    } else {
        assert((digits + rest).drop_first() =~= digits.drop_first() + rest);
        assert(all_digits(digits.drop_first())) by {
            assert forall|i: int| 0 <= i < digits.drop_first().len() implies is_digit(
                #[trigger] digits.drop_first()[i],
            ) by {
                assert(digits.drop_first()[i] == digits[i + 1]);
            }
        }
        lemma_digit_run(digits.drop_first(), rest);
        assert(is_digit(digits[0]));
        assert(digit_run(digits + rest) =~= digits);
    }
}

// ---------------------------------------------------------------------------
// Laws
// ---------------------------------------------------------------------------

/// Whether a text is found in another at some position.
pub open spec fn is_part(part: Seq<char>, s: Seq<char>) -> bool {
    exists|i: int|
        0 <= i <= s.len() - part.len() && #[trigger] s.subrange(i, i + part.len()) == part
}

/// A text that is put between two others occurs in the whole, and whatever occurs
/// in a text splits it in this way.
pub proof fn lemma_occurs(s: Seq<char>, pattern: Seq<char>)
    ensures
        forall|a: Seq<char>, b: Seq<char>| s == #[trigger] (a + pattern + b) ==> occurs(s, pattern),
        occurs(s, pattern) ==> exists|a: Seq<char>, b: Seq<char>| s == #[trigger] (a + pattern + b),
        occurs(s, pattern) <==> is_part(pattern, s),
{
    assert forall|a: Seq<char>, b: Seq<char>| s == #[trigger] (a + pattern + b) implies occurs(
        s,
        pattern,
    ) by {
        let at = a.len() as int;
        assert(s.subrange(at, at + pattern.len()) =~= pattern);
        assert(stands_at(s, pattern, at));
    }
    if occurs(s, pattern) {
        let at = choose|at: int| stands_at(s, pattern, at);
        assert(s.subrange(at, at + pattern.len()) == pattern);
        assert(s =~= s.take(at) + pattern + s.skip(at + pattern.len()));
    }
    if is_part(pattern, s) {
        let i = choose|i: int|
            0 <= i <= s.len() - pattern.len() && #[trigger] s.subrange(i, i + pattern.len())
                == pattern;
        assert(stands_at(s, pattern, i));
    }
}

/// A text begins with another where it is that and something after it, and ends
/// with another where it is something and that after it.
pub proof fn lemma_begins_and_ends(s: Seq<char>, part: Seq<char>)
    ensures
        begins(s, part) <==> part.len() <= s.len() && s.take(part.len() as int) == part,
        ends(s, part) <==> part.len() <= s.len() && s.skip(s.len() - part.len()) == part,
{
    if part.len() <= s.len() {
        assert(s.subrange(0, part.len() as int) =~= s.take(part.len() as int));
        assert(s.subrange(s.len() - part.len(), s.len() as int) =~= s.skip(s.len() - part.len()));
    }
}

/// What stands before the first separator is what is put before one, and what
/// stands after the last is what is put after one; without a separator both are
/// the whole.
pub proof fn lemma_separated(a: Seq<char>, c: char, b: Seq<char>)
    ensures
        !a.contains(c) ==> before_first(a + seq![c] + b, c) == a,
        !b.contains(c) ==> after_last(a + seq![c] + b, c) == b,
        !a.contains(c) ==> before_first(a, c) == a && after_last(a, c) == a,
{
    let whole = a + seq![c] + b;
    assert(whole[a.len() as int] == c);
    if !a.contains(c) {
        assert forall|i: int| 0 <= i < a.len() implies whole[i] != c && a[i] != c by {
            assert(whole[i] == a[i]);
            assert(a.contains(a[i]));
        }
        lemma_first_index(whole, c, a.len() as int);
        assert(whole.take(a.len() as int) =~= a);
        lemma_first_index(a, c, a.len() as int);
        lemma_last_end(a, c, 0);
        assert(a.take(a.len() as int) =~= a);
        assert(a.skip(0) =~= a);
    }
    if !b.contains(c) {
        let n = a.len() + 1;
        assert forall|i: int| n <= i < whole.len() implies whole[i] != c by {
            assert(whole[i] == b[i - n]);
            assert(b.contains(b[i - n]));
        }
        lemma_last_end(whole, c, n as int);
        assert(whole.skip(n as int) =~= b);
    }
}

/// Whether a text is white space through and through.
pub open spec fn is_white(s: Seq<char>) -> bool {
    forall|i: int| 0 <= i < s.len() ==> is_white_space(#[trigger] s[i])
}

/// Trimming takes off exactly the white space that is put around a text which has
/// none at its own ends.
pub proof fn lemma_trimmed(a: Seq<char>, core: Seq<char>, b: Seq<char>)
    requires
        is_white(a),
        is_white(b),
        core.len() > 0 ==> !is_white_space(core[0]) && !is_white_space(core.last()),
    ensures
        trimmed(a + core + b) == core,
{
    let whole = a + core + b;
    let from = a.len() as int;
    let to = from + core.len();
    assert forall|i: int| 0 <= i < from implies is_white_space(whole[i]) by {
        assert(whole[i] == a[i]);
        assert(is_white_space(a[i]));
    }
    assert forall|i: int| to <= i < whole.len() implies is_white_space(whole[i]) by {
        assert(whole[i] == b[i - to]);
        assert(is_white_space(b[i - to]));
    }
    if from < to {
        assert(whole[from] == core[0]);
        assert(whole[to - 1] == core.last());
    }
    lemma_trimmed_is_core(whole, from, to);
    assert(whole.subrange(from, to) =~= core);
}

/// Every text is what is left of it by trimming, with white space around it. So
/// a text is blank where it is white space through and through.
pub proof fn lemma_trimmed_parts(s: Seq<char>)
    ensures
        exists|a: Seq<char>, b: Seq<char>|
            is_white(a) && is_white(b) && s == #[trigger] (a + trimmed(s) + b),
        is_blank(s) <==> is_white(s),
    decreases s.len(),
{
    let none = Seq::<char>::empty();
    if s.len() > 0 && is_white_space(s[0]) {
        let rest = s.drop_first();
        lemma_trimmed_parts(rest);
        let (a, b) = choose|a: Seq<char>, b: Seq<char>|
            is_white(a) && is_white(b) && rest == #[trigger] (a + trimmed(rest) + b);
        let more = seq![s[0]] + a;
        assert forall|i: int| 0 <= i < more.len() implies is_white_space(#[trigger] more[i]) by {
            if i > 0 {
                assert(more[i] == a[i - 1]);
            }
        }
        let core = trimmed(rest);
        assert(s =~= seq![s[0]] + rest);
        assert(seq![s[0]] + (a + core + b) =~= more + core + b);
        assert(s == more + trimmed(s) + b);
        assert(is_white(s) == is_white(rest)) by {
            if is_white(rest) {
                assert forall|i: int| 0 <= i < s.len() implies is_white_space(#[trigger] s[i]) by {
                    if i > 0 {
                        assert(s[i] == rest[i - 1]);
                    }
                }
            }
            if is_white(s) {
                assert forall|i: int| 0 <= i < rest.len() implies is_white_space(
                    #[trigger] rest[i],
                ) by {
                    assert(rest[i] == s[i + 1]);
                }
            }
        }
    } else if s.len() > 0 && is_white_space(s.last()) {
        let rest = s.drop_last();
        lemma_trimmed_parts(rest);
        let (a, b) = choose|a: Seq<char>, b: Seq<char>|
            is_white(a) && is_white(b) && rest == #[trigger] (a + trimmed(rest) + b);
        let more = b.push(s.last());
        assert forall|i: int| 0 <= i < more.len() implies is_white_space(#[trigger] more[i]) by {
            if i < b.len() {
                assert(more[i] == b[i]);
            }
        }
        let core = trimmed(rest);
        assert(s =~= rest.push(s.last()));
        assert((a + core + b).push(s.last()) =~= a + core + more);
        assert(s == a + trimmed(s) + more);
        assert(!is_white_space(s[0]));
        assert(rest[0] == s[0] || rest.len() == 0);
        if is_white(rest) {
            assert(rest.len() == 0);
            assert(s.len() == 1);
            assert(s[0] == s.last());
        }
        assert(!is_white(s));
    } else {
        assert(s =~= none + trimmed(s) + none);
        assert(is_white(none));
        if s.len() > 0 {
            assert(!is_white_space(s[0]));
        }
    }
}

/// A line that ends in a newline comes before the lines of what follows; text
/// without a newline is one line; and there are no lines in an empty text.
pub proof fn lemma_lines(line: Seq<char>, rest: Seq<char>)
    requires
        !line.contains('\n'),
    ensures
        lines(line + seq!['\n'] + rest) == seq![line] + lines(rest),
        line.len() > 0 ==> lines(line) == seq![line],
        lines(Seq::empty()) == Seq::<Seq<char>>::empty(),
{
    let whole = line + seq!['\n'] + rest;
    let n = line.len() as int;
    assert forall|i: int| 0 <= i < n implies whole[i] != '\n' && line[i] != '\n' by {
        assert(whole[i] == line[i]);
        assert(line.contains(line[i]));
    }
    assert(whole[n] == '\n');
    lemma_first_index(whole, '\n', n);
    lemma_first_index(line, '\n', n);
    assert(whole.take(n) =~= line);
    assert(whole.skip(n + 1) =~= rest);
    assert(lines(whole) == seq![whole.take(n)] + lines(whole.skip(n + 1)));
}

/// Lower case leaves every character but `A` to `Z` as it is, and moves those to
/// `a` to `z`.
pub proof fn lemma_lowered(s: Seq<char>)
    ensures
        lowered(s).len() == s.len(),
        forall|i: int|
            0 <= i < s.len() ==> #[trigger] lowered(s)[i] == if 'A' <= s[i] <= 'Z' {
                (s[i] as u32 + 32) as char
            } else {
                s[i]
            },
{
}

/// A number is written digit by digit: one more digit after a number that is not
/// zero is ten times the number and that digit.
pub proof fn lemma_decimal(n: nat, d: nat)
    requires
        d < 10,
    ensures
        decimal(d) == seq![(48 + d) as char],
        n > 0 ==> decimal(n * 10 + d) == decimal(n) + seq![(48 + d) as char],
        n >= 100 ==> decimal3(n) == decimal(n),
        10 <= n < 100 ==> decimal3(n) == seq!['0'] + decimal(n),
        decimal3(d) == seq!['0', '0'] + decimal(d),
{
    if n > 0 {
        let m = n * 10 + d;
        assert(m / 10 == n && m % 10 == d);
        assert(decimal(m) =~= decimal(n) + seq![(48 + d) as char]);
    }
}

/// The number that digits stand for grows by one digit at a time, and the digits
/// that a text begins with are all of its digits up to the first other character.
pub proof fn lemma_digits(digits: Seq<char>, d: char, rest: Seq<char>)
    requires
        forall|i: int| 0 <= i < digits.len() ==> '0' <= #[trigger] digits[i] <= '9',
        '0' <= d <= '9',
        rest.len() > 0 ==> !('0' <= rest[0] <= '9'),
    ensures
        decimal_value(digits.push(d)) == decimal_value(digits) * 10 + (d as u32 - 48),
        decimal_value(Seq::empty()) == 0,
        digit_run(digits + rest) == digits,
        all_digits(digits),
{
    assert forall|i: int| 0 <= i < digits.len() implies is_digit(#[trigger] digits[i]) by {}
    lemma_digit_run(digits, rest);
    assert(digits.push(d).drop_last() =~= digits);
}

/// Text is ordered by its first character that differs; and a text comes at or
/// before everything that goes on from it.
pub proof fn lemma_lex(common: Seq<char>, a: Seq<char>, b: Seq<char>)
    ensures
        lex_le(common, common + b),
        b.len() > 0 ==> !lex_le(common + b, common),
        a.len() > 0 && b.len() > 0 && a[0] < b[0] ==> lex_le(common + a, common + b) && !lex_le(
            common + b,
            common + a,
        ),
    decreases common.len(),
{
    if common.len() > 0 {
        assert((common + a).drop_first() =~= common.drop_first() + a);
        assert((common + b).drop_first() =~= common.drop_first() + b);
        lemma_lex(common.drop_first(), a, b);
    } else {
        assert(common + a =~= a);
        assert(common + b =~= b);
    }
}

/// White space is the 25 characters of the `White_Space` property.
pub proof fn lemma_white_space(c: char)
    ensures
        is_white_space(c) <==> (9 <= c as u32 <= 13 || 0x2000 <= c as u32 <= 0x200a || seq![
            0x20u32,
            0x85u32,
            0xa0u32,
            0x1680u32,
            0x2028u32,
            0x2029u32,
            0x202fu32,
            0x205fu32,
            0x3000u32,
        ].contains(c as u32)),
{
    let single = seq![
        0x20u32,
        0x85u32,
        0xa0u32,
        0x1680u32,
        0x2028u32,
        0x2029u32,
        0x202fu32,
        0x205fu32,
        0x3000u32,
    ];
    assert(single[0] == 0x20 && single[1] == 0x85 && single[2] == 0xa0 && single[3] == 0x1680);
    assert(single[4] == 0x2028 && single[5] == 0x2029 && single[6] == 0x202f);
    assert(single[7] == 0x205f && single[8] == 0x3000);
    if single.contains(c as u32) {
        let i = choose|i: int| 0 <= i < single.len() && single[i] == c as u32;
    }
}

} // verus!
