use folio::errors::FolioError;
use folio::subtitles::{
    decode_subtitles, format_timestamp, generate_srt, parse_srt, parse_srt_bytes, parse_timestamp, Segment,
};

fn seg(start: i64, end: i64, text: &str) -> Segment {
    Segment { start, end, text: text.to_string() }
}

fn subtitle_error(e: &FolioError) -> String {
    match e {
        FolioError::SubtitleParseError(m) => m.clone(),
        other => panic!("not a subtitle parse error: {:?}", other),
    }
}

#[test]
fn parse_timestamp_reads_fields() {
    assert_eq!(parse_timestamp("01:02:03,456").unwrap(), 3_723_456);
    assert_eq!(parse_timestamp("00:00:00,000").unwrap(), 0);
}

#[test]
fn parse_timestamp_trims_fields() {
    assert_eq!(parse_timestamp(" 01 : 02 :03 , 456 ").unwrap(), 3_723_456);
}

#[test]
fn parse_timestamp_accepts_signs() {
    assert_eq!(parse_timestamp("+1:0:0,0").unwrap(), 3_600_000);
    assert_eq!(parse_timestamp("-1:-2:-3,-456").unwrap(), -3_723_456);
}

#[test]
fn parse_timestamp_errors_name_the_field() {
    let cases = [
        ("01:02", "Invalid timestamp: 01:02"),
        ("1:2:3:4", "Invalid timestamp: 1:2:3:4"),
        ("aa:00:00,000", "Invalid hours: aa"),
        ("00: bb:00,000", "Invalid minutes:  bb"),
        ("00:00:00", "Invalid seconds: 00"),
        ("00:00:1,2,3", "Invalid seconds: 1,2,3"),
        ("00:00:cc,000", "Invalid seconds: cc"),
        ("00:00:00,dd", "Invalid milliseconds: dd"),
        ("00:00:00,", "Invalid milliseconds: "),
        ("+:00:00,000", "Invalid hours: +"),
    ];
    for (input, expected) in cases {
        let e = parse_timestamp(input).unwrap_err();
        assert_eq!(subtitle_error(&e), expected);
    }
}

#[test]
fn parse_timestamp_field_out_of_range_is_an_error() {
    let e = parse_timestamp("99999999999999999999:00:00,000").unwrap_err();
    assert_eq!(subtitle_error(&e), "Invalid hours: 99999999999999999999");
}

#[test]
fn format_timestamp_pads_fields() {
    assert_eq!(format_timestamp(3_723_456), "01:02:03,456");
    assert_eq!(format_timestamp(0), "00:00:00,000");
    assert_eq!(format_timestamp(61_001), "00:01:01,001");
    assert_eq!(format_timestamp(360_000_000), "100:00:00,000");
}

#[test]
fn format_timestamp_of_negative_values() {
    assert_eq!(format_timestamp(-1), "00:00:00,-01");
    assert_eq!(format_timestamp(-3_723_456), "-1:-2:-3,-456");
}

#[test]
fn timestamp_round_trip_on_edges() {
    for ms in [0, 1, -1, 999, 1000, 59_999, 3_599_999, 3_600_000, 123_456_789, -987_654_321, i64::MAX, i64::MIN] {
        assert_eq!(parse_timestamp(&format_timestamp(ms)).unwrap(), ms);
    }
}

#[test]
fn generate_srt_numbers_cues() {
    let segs = vec![seg(1000, 2500, "Hello"), seg(3000, 4000, "Two\nlines")];
    assert_eq!(
        generate_srt(&segs),
        "1\n00:00:01,000 --> 00:00:02,500\nHello\n\n2\n00:00:03,000 --> 00:00:04,000\nTwo\nlines\n"
    );
    assert_eq!(generate_srt(&[]), "");
}

#[test]
fn parse_srt_reads_cues() {
    let doc = "1\r\n00:00:01,000 --> 00:00:02,500\r\nHello\r\nthere\r\n\r\n2\r00:00:03,000 --> 00:00:04,000\rBye\r\n";
    let segs = parse_srt(doc).unwrap().unwrap();
    assert_eq!(segs, vec![seg(1000, 2500, "Hello\nthere"), seg(3000, 4000, "Bye")]);
}

#[test]
fn parse_srt_skips_short_and_malformed_blocks() {
    let doc = "1\n00:00:01,000 --> 00:00:02,000\n\n\n2\nno arrow here\ntext\n\n3\n00:00:05,000 --> 00:00:06,000\n  Kept  \n";
    let segs = parse_srt(doc).unwrap().unwrap();
    assert_eq!(segs, vec![seg(5000, 6000, "  Kept")]);
    assert_eq!(parse_srt("").unwrap().unwrap(), vec![]);
    assert_eq!(parse_srt("\n\n\n\n").unwrap().unwrap(), vec![]);
}

#[test]
fn parse_srt_stops_at_a_bad_timestamp() {
    let doc = "1\n00:00:01,000 --> 00:00:02,000\nA\n\n2\n00:xx:01,000 --> 00:00:02,000\nB\n";
    let e = parse_srt(doc).unwrap().unwrap_err();
    assert_eq!(subtitle_error(&e), "Invalid minutes: xx");
    assert_eq!(e.message(), "Subtitle parse error: Invalid minutes: xx");
}

#[test]
fn parse_srt_reports_overflow() {
    let doc = "1\n9999999999999:00:00,000 --> 00:00:02,000\nA\n";
    assert!(parse_srt(doc).is_none());
}

#[test]
fn srt_round_trip() {
    let segs = vec![
        seg(0, 1500, "First"),
        seg(61_000, 62_000, "Second line\n with a leading space"),
        seg(-5, 3_600_000 * 120, "Odd times"),
    ];
    assert_eq!(parse_srt(&generate_srt(&segs)).unwrap().unwrap(), segs);
}

#[test]
fn decode_prefers_utf8() {
    let text = decode_subtitles("caf\u{e9} \u{4f60}".as_bytes(), "x.srt").unwrap();
    assert_eq!(text, "caf\u{e9} \u{4f60}");
}

#[test]
fn decode_falls_back_to_windows_1252() {
    let bytes = b"1\n00:00:01,000 --> 00:00:02,000\ncaf\xe9\n";
    assert_eq!(decode_subtitles(bytes, "x.srt").unwrap(), "1\n00:00:01,000 --> 00:00:02,000\ncaf\u{e9}\n");
    let segs = parse_srt_bytes(bytes, "x.srt").unwrap().unwrap();
    assert_eq!(segs, vec![seg(1000, 2000, "caf\u{e9}")]);
}

#[test]
fn decode_follows_a_utf16_byte_order_mark() {
    let mut bytes = vec![0xFF, 0xFE];
    for unit in "hi\u{e9}".encode_utf16() {
        bytes.extend_from_slice(&unit.to_le_bytes());
    }
    assert_eq!(decode_subtitles(&bytes, "x.srt").unwrap(), "hi\u{e9}");
}

#[test]
fn decode_fails_when_no_encoding_is_clean() {
    let bytes = [0xEF, 0xBB, 0xBF, 0xFF];
    let e = decode_subtitles(&bytes, "movies/x.srt").unwrap_err();
    assert_eq!(subtitle_error(&e), "Could not decode subtitle file with any known encoding: movies/x.srt");
    let e = parse_srt_bytes(&bytes, "movies/x.srt").unwrap().unwrap_err();
    assert_eq!(subtitle_error(&e), "Could not decode subtitle file with any known encoding: movies/x.srt");
}

#[test]
fn line_endings_are_read_alike() {
    let lf = "1\n00:00:01,000 --> 00:00:02,000\nA\nB\n\n2\n00:00:03,000 --> 00:00:04,000\nC\n";
    let crlf = lf.replace('\n', "\r\n");
    let cr = lf.replace('\n', "\r");
    let expected = parse_srt(lf).unwrap().unwrap();
    assert_eq!(expected.len(), 2);
    assert_eq!(parse_srt(&crlf).unwrap().unwrap(), expected);
    assert_eq!(parse_srt(&cr).unwrap().unwrap(), expected);
}

#[test]
fn reparse_gives_same_segments() {
    let doc = "7\r\n00:00:01,000 --> 00:00:02,000\r\n  indented \r\nsecond line\r\n\r\n\r\n\r\n9\n01:00:00,000 --> 01:00:01,500\nlast\n\nstray block\n";
    let first = parse_srt(doc).unwrap().unwrap();
    assert_eq!(first.len(), 2);
    let again = parse_srt(&generate_srt(&first)).unwrap().unwrap();
    assert_eq!(again, first);
}

#[test]
fn line_endings_are_read_alike_from_bytes() {
    let lf = "1\n00:00:01,000 --> 00:00:02,500\nÉté\n\n2\n00:00:03,000 --> 00:00:04,000\nC\n";
    let crlf = lf.replace('\n', "\r\n");
    let cr = lf.replace('\n', "\r");
    let expected = parse_srt_bytes(lf.as_bytes(), "a.srt").unwrap().unwrap();
    assert_eq!(expected, vec![seg(1000, 2500, "Été"), seg(3000, 4000, "C")]);
    assert_eq!(parse_srt_bytes(crlf.as_bytes(), "a.srt").unwrap().unwrap(), expected);
    assert_eq!(parse_srt_bytes(cr.as_bytes(), "a.srt").unwrap().unwrap(), expected);

    let bad = "1\n00:00:01,000 --> 00:00:02,000\nA\n\n2\n00:0x:03,000 --> 00:00:04,000\nC\n";
    let e_lf = subtitle_error(&parse_srt_bytes(bad.as_bytes(), "b.srt").unwrap().unwrap_err());
    let e_crlf = subtitle_error(&parse_srt_bytes(bad.replace('\n', "\r\n").as_bytes(), "b.srt").unwrap().unwrap_err());
    let e_cr = subtitle_error(&parse_srt_bytes(bad.replace('\n', "\r").as_bytes(), "b.srt").unwrap().unwrap_err());
    assert_eq!(e_crlf, e_lf);
    assert_eq!(e_cr, e_lf);
}

#[test]
fn written_timestamps_have_one_shape_and_sort_as_times() {
    let times: [i64; 9] = [0, 999, 1000, 59_999, 60_000, 3_599_999, 3_600_000, 35_999_999, 359_999_999];
    for w in times.windows(2) {
        let a = format_timestamp(w[0]);
        let b = format_timestamp(w[1]);
        assert_eq!(a.len(), 12);
        assert_eq!(b.len(), 12);
        assert!(a < b, "{} < {}", a, b);
    }
    assert_eq!(format_timestamp(359_999_999), "99:59:59,999");
    assert_eq!(format_timestamp(35_999_999), "09:59:59,999");
}

#[test]
fn written_file_reads_back_from_bytes() {
    let segs = vec![seg(0, 1500, "Hello\nworld"), seg(61_000, 3_600_000, "Ça va ?"), seg(3_600_001, 3_600_002, "x")];
    let doc = generate_srt(&segs);
    assert_eq!(parse_srt_bytes(doc.as_bytes(), "w.srt").unwrap().unwrap(), segs);
}
