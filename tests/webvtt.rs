use webvtt_merge::cue::WebVTTCue;
use webvtt_merge::error::WebVTTError;
use webvtt_merge::timerange::Timerange;
use webvtt_merge::timestamp::Timestamp;
use webvtt_merge::track::{merge_document, WebVTT};

fn ts(millis: u64) -> Timestamp {
    Timestamp { millis }
}

fn cue(start: u64, end: u64, speaker: Option<&str>, text: &str) -> WebVTTCue {
    WebVTTCue {
        range: Timerange { start: ts(start), end: ts(end) },
        speaker: speaker.map(|s| s.to_string()),
        text: text.to_string(),
    }
}

fn parsing(expected: &str, found: &str) -> WebVTTError {
    WebVTTError::Parsing(expected.to_string(), found.to_string())
}

#[test]
fn timestamp_reads_hours_minutes_seconds() {
    assert_eq!(Timestamp::from("00:00:01.000"), Ok(ts(1000)));
    assert_eq!(Timestamp::from("01:02:03.456"), Ok(ts(3_723_456)));
}

#[test]
fn timestamp_reads_any_number_of_components() {
    assert_eq!(Timestamp::from("2.5"), Ok(ts(2500)));
    assert_eq!(Timestamp::from("1:05"), Ok(ts(65_000)));
    assert_eq!(Timestamp::from("1:00:00:00.000"), Ok(ts(216_000_000)));
}

#[test]
fn timestamp_truncates_to_milliseconds() {
    assert_eq!(Timestamp::from("00:00:01.0009"), Ok(ts(1000)));
    assert_eq!(Timestamp::from("00:00:01.9999"), Ok(ts(1999)));
    assert_eq!(Timestamp::from(".5"), Ok(ts(500)));
    assert_eq!(Timestamp::from("7."), Ok(ts(7000)));
}

#[test]
fn timestamp_rejects_bad_seconds() {
    assert_eq!(Timestamp::from(""), Err(parsing("a decimal number", "")));
    assert_eq!(Timestamp::from("00:00:xx"), Err(parsing("a decimal number", "xx")));
    assert_eq!(Timestamp::from("00:00:1.2.3"), Err(parsing("a decimal number", "1.2.3")));
    assert_eq!(Timestamp::from("00:00:."), Err(parsing("a decimal number", ".")));
}

#[test]
fn timestamp_rejects_bad_units_nearest_first() {
    assert_eq!(Timestamp::from("aa:bb:01.000"), Err(parsing("a number", "bb")));
    assert_eq!(Timestamp::from("aa:00:01.000"), Err(parsing("a number", "aa")));
    assert_eq!(Timestamp::from(":01.000"), Err(parsing("a number", "")));
}

#[test]
fn timestamp_rejects_values_too_large() {
    assert_eq!(
        Timestamp::from("99999999999999999999:00:00.000"),
        Err(parsing("a timestamp", "99999999999999999999:00:00.000"))
    );
    assert_eq!(Timestamp::from("0:0:0:0:0:0:0:0:0:0:0:0:0:0:1.5"), Ok(ts(1500)));
}

#[test]
fn timestamp_formats_canonically() {
    assert_eq!(ts(1000).to_string(), "00:00:01.000");
    assert_eq!(ts(3_723_456).to_string(), "01:02:03.456");
    assert_eq!(ts(360_000_007).to_string(), "100:00:00.007");
    assert_eq!(ts(59_999).to_string(), "00:00:59.999");
}

#[test]
fn timestamp_round_trip_has_three_components() {
    for text in ["1:00:00:00.000", "5", "1:2.25", "00:00:01.0009"] {
        let t = Timestamp::from(text).unwrap();
        let out = t.to_string();
        assert_eq!(out.split(':').count(), 3);
        assert_eq!(Timestamp::from(&out), Ok(t));
    }
}

#[test]
fn timerange_reads_timing_line() {
    assert_eq!(
        Timerange::from("00:00:01.000 --> 00:00:02.500"),
        Ok(Timerange { start: ts(1000), end: ts(2500) })
    );
    assert_eq!(
        Timerange::from("00:00:01.000 --> 00:00:02.500 align:start"),
        Ok(Timerange { start: ts(1000), end: ts(2500) })
    );
}

#[test]
fn timerange_rejects_wrong_arrow() {
    assert_eq!(
        Timerange::from("00:00:01.000 => 00:00:02.000"),
        Err(parsing("-->", "=>"))
    );
    assert_eq!(Timerange::from("00:00:01.000"), Err(parsing("-->", "")));
}

#[test]
fn timerange_rejects_missing_end() {
    assert_eq!(Timerange::from("00:00:01.000 -->"), Err(parsing("a end time", "")));
    assert_eq!(Timerange::from("00:00:01.000 --> "), Err(parsing("a decimal number", "")));
    assert_eq!(Timerange::from("x --> 00:00:01.000"), Err(parsing("a decimal number", "x")));
}

#[test]
fn timerange_formats() {
    let r = Timerange { start: ts(1000), end: ts(2000) };
    assert_eq!(r.to_string(), "00:00:01.000 --> 00:00:02.000");
}

#[test]
fn cue_from_has_no_speaker() {
    let r = Timerange { start: ts(1000), end: ts(2000) };
    assert_eq!(WebVTTCue::from(&r, "hi"), Ok(cue(1000, 2000, None, "hi")));
}

#[test]
fn cue_formats_with_and_without_speaker() {
    assert_eq!(
        cue(1000, 2000, None, "hi").to_string(),
        "\n00:00:01.000 --> 00:00:02.000\nhi\n"
    );
    assert_eq!(
        cue(1000, 2000, Some("Ann"), "hi").to_string(),
        "\n00:00:01.000 --> 00:00:02.000\n<v Ann>hi\n"
    );
}

#[test]
fn example_single_cue_tagged_and_serialized() {
    let mut t = WebVTT::from("WEBVTT\n\n00:00:01.000 --> 00:00:02.000\nhello\n").unwrap();
    assert_eq!(t.cues, vec![cue(1000, 2000, None, "hello")]);
    t.set_speaker_for_all_lines("A");
    assert_eq!(t.cues, vec![cue(1000, 2000, Some("A"), "hello")]);
    assert_eq!(t.to_string(), "WEBVTT\n\n00:00:01.000 --> 00:00:02.000\n<v A>hello\n");
}

#[test]
fn example_two_files_merged_by_start() {
    let mut acc = WebVTT::new();
    let a = "WEBVTT\n\n00:00:05.000 --> 00:00:06.000\nfrom a\n";
    let b = "WEBVTT\n\n00:00:01.000 --> 00:00:02.000\nfrom b\n";
    assert_eq!(merge_document(&mut acc, a, "A"), Ok(true));
    assert_eq!(merge_document(&mut acc, b, "B"), Ok(true));
    assert_eq!(
        acc.cues,
        vec![cue(1000, 2000, Some("B"), "from b"), cue(5000, 6000, Some("A"), "from a")]
    );
    assert_eq!(
        acc.to_string(),
        "WEBVTT\n\n00:00:01.000 --> 00:00:02.000\n<v B>from b\n\n00:00:05.000 --> 00:00:06.000\n<v A>from a\n"
    );
}

#[test]
fn example_missing_header() {
    assert_eq!(
        WebVTT::from("00:00:01.000 --> 00:00:02.000\nhello\n"),
        Err(parsing("WEBVTT", "00:00:01.000 --> 00:00:02.000"))
    );
    assert_eq!(WebVTT::from(""), Err(parsing("WEBVTT", "")));
    assert_eq!(WebVTT::from("webvtt\r\nx"), Err(parsing("WEBVTT", "webvtt")));
}

#[test]
fn example_wrong_arrow_in_document() {
    assert_eq!(
        WebVTT::from("WEBVTT\n\n00:00:01.000 => 00:00:02.000\nhello\n"),
        Err(parsing("-->", "=>"))
    );
}

#[test]
fn example_two_lines_make_two_cues() {
    let t = WebVTT::from("WEBVTT\n\n00:00:01.000 --> 00:00:02.000\nfirst\nsecond\n").unwrap();
    assert_eq!(
        t.cues,
        vec![cue(1000, 2000, None, "first"), cue(1000, 2000, None, "second")]
    );
}

#[test]
fn parse_handles_blocks_blank_lines_and_crlf() {
    let doc = "WEBVTT\r\n\r\n00:00:03.000 --> 00:00:04.000\r\nthree\r\n  \r\n00:00:01.000 --> 00:00:02.000\r\none\r\n";
    let t = WebVTT::from(doc).unwrap();
    assert_eq!(
        t.cues,
        vec![cue(3000, 4000, None, "three"), cue(1000, 2000, None, "one")]
    );
}

#[test]
fn text_after_header_is_read_as_a_timing_line() {
    assert_eq!(
        WebVTT::from("WEBVTT header\n\n00:00:01.000 --> 00:00:02.000\nx\n"),
        Err(parsing("a decimal number", ""))
    );
}

#[test]
fn parse_empty_body() {
    assert_eq!(WebVTT::from("WEBVTT"), Ok(WebVTT::new()));
    assert_eq!(WebVTT::from("WEBVTT\n\n\n"), Ok(WebVTT::new()));
}

#[test]
fn parse_bad_timestamp_aborts_document() {
    assert_eq!(
        WebVTT::from("WEBVTT\n\n00:00:01.000 --> 00:00:02.000\nok\n\n00:0x:01.000 --> 00:00:02.000\nbad\n"),
        Err(parsing("a number", "0x"))
    );
}

#[test]
fn sort_is_stable_and_idempotent() {
    let mut t = WebVTT {
        cues: vec![
            cue(3000, 4000, None, "c"),
            cue(1000, 9000, None, "a1"),
            cue(2000, 2500, None, "b"),
            cue(1000, 1500, None, "a2"),
        ],
    };
    assert!(!t.is_ordered());
    t.sort();
    let once = t.clone();
    assert_eq!(
        t.cues,
        vec![
            cue(1000, 9000, None, "a1"),
            cue(1000, 1500, None, "a2"),
            cue(2000, 2500, None, "b"),
            cue(3000, 4000, None, "c"),
        ]
    );
    assert!(t.is_ordered());
    t.sort();
    assert_eq!(t, once);
}

#[test]
fn tagging_overwrites_every_speaker() {
    let mut t = WebVTT {
        cues: vec![cue(0, 1, Some("old"), "x"), cue(2, 3, None, "y")],
    };
    t.set_speaker_for_all_lines("S");
    let once = t.clone();
    assert!(t.cues.iter().all(|c| c.speaker.as_deref() == Some("S")));
    t.set_speaker_for_all_lines("S");
    assert_eq!(t, once);
}

#[test]
fn merge_keeps_file_order_among_ties() {
    let mut a = WebVTT { cues: vec![cue(1000, 2000, Some("A"), "a")] };
    let b = WebVTT { cues: vec![cue(1000, 3000, Some("B"), "b")] };
    let mut b2 = b.clone();
    a.merge_with(b);
    assert_eq!(
        a.cues,
        vec![cue(1000, 2000, Some("A"), "a"), cue(1000, 3000, Some("B"), "b")]
    );
    b2.merge_with(WebVTT { cues: vec![cue(1000, 2000, Some("A"), "a")] });
    assert_eq!(
        b2.cues,
        vec![cue(1000, 3000, Some("B"), "b"), cue(1000, 2000, Some("A"), "a")]
    );
}

#[test]
fn merge_document_reports_unsorted_and_errors() {
    let mut acc = WebVTT::new();
    let doc = "WEBVTT\n\n00:00:05.000 --> 00:00:06.000\nlate\n\n00:00:01.000 --> 00:00:02.000\nearly\n";
    assert_eq!(merge_document(&mut acc, doc, "X"), Ok(false));
    assert_eq!(
        acc.cues,
        vec![cue(1000, 2000, Some("X"), "early"), cue(5000, 6000, Some("X"), "late")]
    );
    let before = acc.clone();
    assert_eq!(merge_document(&mut acc, "nope", "Y"), Err(parsing("WEBVTT", "nope")));
    assert_eq!(acc, before);
}

#[test]
fn serialize_then_parse_round_trips() {
    let doc = "WEBVTT\n\n00:00:01.000 --> 00:00:02.000\nhello\n\n01:00:00.250 --> 01:00:01.000\nworld\n";
    let t = WebVTT::from(doc).unwrap();
    let out = t.to_string();
    assert_eq!(out, doc);
    assert_eq!(WebVTT::from(&out), Ok(t));
}

#[test]
fn multi_line_block_serializes_as_separate_blocks() {
    let doc = "WEBVTT\n\n00:00:01.000 --> 00:00:02.000\nline one\nline two\n";
    let t = WebVTT::from(doc).unwrap();
    let again = WebVTT::from(&t.to_string()).unwrap();
    assert_eq!(again, t);
    assert_eq!(t.to_string().matches("-->").count(), 2);
}
