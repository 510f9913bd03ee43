use podcast::audio::{audio_ext, audio_mime, strip_query};
use podcast::chunks::{
    chunk_file_name, collect_chunks, episode_file_name, in_order, max_chunks, minutes_for, number_of,
    split_args, trim_args, trimmed_file_name, SplitArg, SEGMENT_MINUTES,
};

#[test]
fn audio_ext_handles_query_and_unknown() {
    assert_eq!(audio_ext("https://x/ep.mp3?token=abc"), "mp3");
    assert_eq!(audio_ext("https://x/ep.m4a"), "m4a");
    assert_eq!(audio_ext("https://x/stream"), "mp3");
}

#[test]
fn audio_ext_knows_each_extension() {
    assert_eq!(audio_ext("a.mp4"), "mp4");
    assert_eq!(audio_ext("a.aac"), "aac");
    assert_eq!(audio_ext("a.ogg"), "ogg");
    assert_eq!(audio_ext("a.oga"), "ogg");
    assert_eq!(audio_ext("a.wav"), "wav");
    assert_eq!(audio_ext("a.flac"), "flac");
    assert_eq!(audio_ext("a.opus"), "mp3");
    assert_eq!(audio_ext(""), "mp3");
    assert_eq!(audio_ext("m4a"), "m4a");
    assert_eq!(audio_ext("a.m4a."), "mp3");
}

#[test]
fn audio_ext_ignores_case_and_query() {
    assert_eq!(audio_ext("https://x/EP.M4A?b=c.wav"), "m4a");
    assert_eq!(audio_ext("https://x/ep.FlAc?"), "flac");
    assert_eq!(audio_ext("https://x/ep?file=a.wav"), "mp3");
}

#[test]
fn audio_mime_of_each_extension() {
    assert_eq!(audio_mime("mp3"), "audio/mpeg");
    assert_eq!(audio_mime("m4a"), "audio/mp4");
    assert_eq!(audio_mime("mp4"), "audio/mp4");
    assert_eq!(audio_mime("aac"), "audio/mp4");
    assert_eq!(audio_mime("ogg"), "audio/ogg");
    assert_eq!(audio_mime("wav"), "audio/wav");
    assert_eq!(audio_mime("flac"), "audio/flac");
    assert_eq!(audio_mime("oga"), "audio/mpeg");
    assert_eq!(audio_mime(""), "audio/mpeg");
}

#[test]
fn strip_query_cuts_at_the_first_question_mark() {
    assert_eq!(strip_query("https://x/a?b?c"), "https://x/a");
    assert_eq!(strip_query("https://x/a"), "https://x/a");
    assert_eq!(strip_query("\u{e9}?\u{e9}"), "\u{e9}");
    assert_eq!(strip_query("?"), "");
    assert_eq!(strip_query(""), "");
    assert_eq!(strip_query(strip_query("a?b")), "a");
}

#[test]
fn segment_names_are_padded() {
    assert_eq!(chunk_file_name(0, "mp3"), "chunk_000.mp3");
    assert_eq!(chunk_file_name(42, "m4a"), "chunk_042.m4a");
    assert_eq!(chunk_file_name(100, "wav"), "chunk_100.wav");
    assert_eq!(chunk_file_name(12345, "ogg"), "chunk_12345.ogg");
    assert_eq!(episode_file_name("mp3"), "episode.mp3");
}

#[test]
fn the_number_of_a_segment_is_read_back() {
    assert_eq!(number_of("chunk_007.mp3"), Some(7));
    assert_eq!(number_of(&chunk_file_name(u64::MAX, "mp3")), Some(u64::MAX));
    assert_eq!(number_of("chunk_18446744073709551616.mp3"), None);
    assert_eq!(number_of("chunk_x.mp3"), None);
    assert_eq!(number_of("chunk_"), None);
    assert_eq!(number_of("episode.mp3"), None);
}

fn names(list: &[&str]) -> Vec<String> {
    list.iter().map(|n| n.to_string()).collect()
}

#[test]
fn segments_are_collected_in_numeric_order() {
    let listed = names(&[
        "chunk_1000.mp3", "chunk_002.mp3", "episode.mp3", "chunk_999.mp3", "chunk_000.mp3", "chunk_010.mp3",
    ]);
    assert_eq!(
        collect_chunks(listed, "mp3"),
        names(&["chunk_000.mp3", "chunk_002.mp3", "chunk_010.mp3", "chunk_999.mp3", "chunk_1000.mp3"])
    );
}

#[test]
fn only_segments_with_the_extension_are_collected() {
    let listed = names(&["chunk_001.m4a", "xchunk_000.mp3", "chunk_003.mp3", "chunk_002mp3", "chunk_b.mp3", "chunk_a.mp3", ""]);
    assert_eq!(collect_chunks(listed, "mp3"), names(&["chunk_003.mp3", "chunk_a.mp3", "chunk_b.mp3"]));
    assert!(collect_chunks(Vec::new(), "mp3").is_empty());
}

#[test]
fn the_order_of_segments() {
    assert!(in_order("chunk_2.mp3", "chunk_10.mp3"));
    assert!(!in_order("chunk_10.mp3", "chunk_2.mp3"));
    assert!(in_order("chunk_9.mp3", "chunk_x.mp3"));
    assert!(!in_order("chunk_x.mp3", "chunk_9.mp3"));
    assert!(in_order("chunk_01.mp3", "chunk_1.mp3"));
    assert!(in_order("chunk_x.mp3", "chunk_x.mp3"));
}

#[test]
fn the_limit_in_segments() {
    assert_eq!(SEGMENT_MINUTES, 10);
    assert_eq!(max_chunks(90), 9);
    assert_eq!(max_chunks(91), 10);
    assert_eq!(max_chunks(15), 2);
    assert_eq!(max_chunks(10), 1);
    assert_eq!(max_chunks(1), 1);
    assert_eq!(max_chunks(0), 0);
    assert_eq!(max_chunks(u32::MAX), 429496730);
}

#[test]
fn the_minutes_that_a_limit_has_room_for() {
    assert_eq!((0..4).map(|i| minutes_for(i, 25)).collect::<Vec<u32>>(), vec![10, 10, 5, 0]);
    assert_eq!((0..3).map(|i| minutes_for(i, 20)).collect::<Vec<u32>>(), vec![10, 10, 0]);
    assert_eq!(minutes_for(0, 4), 4);
    assert_eq!(minutes_for(0, 0), 0);
    assert_eq!(minutes_for(429496729, u32::MAX), 5);
    let total: u32 = (0..max_chunks(95)).map(|i| minutes_for(i, 95)).sum();
    assert_eq!(total, 95);
}

fn written(args: Vec<SplitArg>) -> Vec<String> {
    args.into_iter()
        .map(|arg| match arg {
            SplitArg::Plain(text) => text,
            SplitArg::InWorkspace(name) => format!("/work/{name}"),
        })
        .collect()
}

#[test]
fn the_arguments_of_the_trimming_command() {
    assert_eq!(trimmed_file_name("m4a"), "trimmed.m4a");
    assert_eq!(
        written(trim_args("chunk_001.m4a", 5, "m4a")),
        names(&[
            "-hide_banner", "-loglevel", "error", "-i", "/work/chunk_001.m4a", "-t", "300", "-c", "copy",
            "/work/trimmed.m4a",
        ])
    );
}

#[test]
fn the_arguments_of_the_splitting_command() {
    assert_eq!(
        written(split_args("m4a")),
        names(&[
            "-hide_banner", "-loglevel", "error", "-i", "/work/episode.m4a", "-f", "segment",
            "-segment_time", "600", "-c", "copy", "-reset_timestamps", "1", "/work/chunk_%03d.m4a",
        ])
    );
}
