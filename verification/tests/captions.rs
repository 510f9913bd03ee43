use podcast::transcript::{normalize_transcript, strip_vtt_timestamps};

#[test]
fn strips_vtt_scaffolding() {
    let vtt = "WEBVTT\n\n1\n00:00:00.000 --> 00:00:02.000\nHello world\n\n2\n00:00:02.000 --> 00:00:04.000\n<c>How</c> are you\n";
    let out = strip_vtt_timestamps(vtt);
    assert_eq!(out, "Hello world\nHow are you");
}

#[test]
fn strips_srt_scaffolding() {
    let srt = "1\n00:00:01,000 --> 00:00:03,000\nFirst line\n\n2\n00:00:03,000 --> 00:00:05,000\nSecond line\n";
    let out = strip_vtt_timestamps(srt);
    assert_eq!(out, "First line\nSecond line");
}

#[test]
fn collapses_duplicate_caption_lines() {
    let vtt = "WEBVTT\n\n00:00:00.000 --> 00:00:02.000\nrepeat\n\n00:00:02.000 --> 00:00:04.000\nrepeat\n";
    assert_eq!(strip_vtt_timestamps(vtt), "repeat");
}

#[test]
fn only_a_repetition_of_the_line_before_is_dropped() {
    assert_eq!(strip_vtt_timestamps("a\nb\na\na\n"), "a\nb\na");
    assert_eq!(strip_vtt_timestamps("a\n\n7\n<i></i>\na"), "a");
    assert_eq!(strip_vtt_timestamps("<i>a</i>\na"), "a");
}

#[test]
fn drops_a_header_with_text() {
    let vtt = "WEBVTT - Episode 1\n\n00:00:00.000 --> 00:00:02.000\nHi\n";
    assert_eq!(strip_vtt_timestamps(vtt), "Hi");
    assert_eq!(strip_vtt_timestamps("WEBVTT\tEpisode 1\nHi"), "Hi");
    assert_eq!(strip_vtt_timestamps("WEBVTT \nHi"), "Hi");
    assert_eq!(strip_vtt_timestamps("WEBVTT Episode 1"), "");
}

#[test]
fn a_line_that_reads_like_a_header_stays_elsewhere() {
    assert_eq!(strip_vtt_timestamps("Hi\nWEBVTT is a format"), "Hi\nWEBVTT is a format");
    assert_eq!(strip_vtt_timestamps("WEBVTT\n\nWEBVTT is a format"), "WEBVTT is a format");
    assert_eq!(strip_vtt_timestamps("WEBVTT a\nWEBVTT b"), "WEBVTT b");
    assert_eq!(strip_vtt_timestamps("Hi\nWEBVTT\nyou"), "Hi\nyou");
}

#[test]
fn drops_notes_and_styles() {
    let vtt = "WEBVTT\nNOTE a comment\nSTYLE\nNOTEBOOK\nkept\n";
    assert_eq!(strip_vtt_timestamps(vtt), "kept");
}

#[test]
fn keeps_lines_that_only_resemble_scaffolding() {
    assert_eq!(strip_vtt_timestamps("webvtt\nWEBVTTx\n12 monkeys\n\u{661}\n"), "webvtt\nWEBVTTx\n12 monkeys\n\u{661}");
}

#[test]
fn drops_lines_that_are_only_tags() {
    assert_eq!(strip_vtt_timestamps("<v Ann>\n<b> </b>\nhi"), "hi");
}

#[test]
fn takes_out_whole_tags_only() {
    assert_eq!(strip_vtt_timestamps("a < b"), "a < b");
    assert_eq!(strip_vtt_timestamps("a > b"), "a > b");
    assert_eq!(strip_vtt_timestamps("<<i>x</i>"), "x");
    assert_eq!(strip_vtt_timestamps("x<>y<a<b>z"), "xyz");
    assert_eq!(strip_vtt_timestamps("<v J\u{f6}rg>\u{fc}ber</v> alles"), "\u{fc}ber alles");
}

#[test]
fn carriage_returns_and_wide_spaces_are_trimmed() {
    assert_eq!(strip_vtt_timestamps("WEBVTT\r\n\r\n1\r\nHello\r\n\u{3000}Hello\u{a0}\r\n"), "Hello");
}

#[test]
fn stripping_again_changes_nothing_here() {
    let once = strip_vtt_timestamps("WEBVTT\n\n1\n00:00 --> 00:01\n<c>one</c>\ntwo\n");
    assert_eq!(once, "one\ntwo");
    assert_eq!(strip_vtt_timestamps(&once), once);
}

#[test]
fn nothing_is_left_of_nothing() {
    assert_eq!(strip_vtt_timestamps(""), "");
    assert_eq!(strip_vtt_timestamps("\n\n"), "");
    assert_eq!(strip_vtt_timestamps("WEBVTT"), "");
}

#[test]
fn a_plain_transcript_is_only_trimmed() {
    assert_eq!(
        normalize_transcript("  line one\n\n42\n<b>line</b> two \n", Some("text/plain")),
        Some("line one\n\n42\n<b>line</b> two".to_string())
    );
    assert_eq!(normalize_transcript(" x ", None), Some("x".to_string()));
}

#[test]
fn a_timed_transcript_is_known_by_type_or_content() {
    assert_eq!(normalize_transcript("WEBVTT\n\nx\n", Some("text/vtt")), Some("x".to_string()));
    assert_eq!(normalize_transcript("1\nx\n", Some("application/srt")), Some("x".to_string()));
    assert_eq!(
        normalize_transcript("1\n00:00 --> 00:01\nx\n", Some("text/plain")),
        Some("x".to_string())
    );
    assert_eq!(normalize_transcript("1\n00:00 --> 00:01\nx\n", None), Some("x".to_string()));
    assert_eq!(normalize_transcript("1\nx\n", Some("text/plain")), Some("1\nx".to_string()));
}

#[test]
fn a_transcript_that_says_nothing_is_none() {
    assert_eq!(normalize_transcript("", None), None);
    assert_eq!(normalize_transcript(" \n\t", Some("text/plain")), None);
    assert_eq!(normalize_transcript("WEBVTT\n\n1\n00:00 --> 00:01\n", Some("text/vtt")), None);
}
