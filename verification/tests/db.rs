use folio::db::{is_entry_upto_date, segments_if_any, settings_from_row, settings_to_row, IndexedFile, Settings};
use folio::errors::FolioError;
use folio::subtitles::Segment;

fn entry(modified_at: i64, file_size: i64) -> IndexedFile {
    IndexedFile {
        path: "/m/a.mp4".to_string(),
        modified_at,
        file_size,
        has_subtitles: false,
        transcription_model: None,
    }
}

#[test]
fn settings_are_stored_as_json_lists() {
    let settings = Settings {
        dirs: vec!["/movies".to_string(), "quote\"d".to_string()],
        exts: vec!["mp4".to_string()],
        transcription: true,
    };
    let row = settings_to_row(&settings);
    assert_eq!(row.dirs_json, "[\"/movies\",\"quote\\\"d\"]");
    assert_eq!(row.exts_json, "[\"mp4\"]");
    assert!(row.transcription);
    let back = settings_from_row(&row.dirs_json, &row.exts_json, row.transcription).unwrap();
    assert_eq!(back.dirs, settings.dirs);
    assert_eq!(back.exts, settings.exts);
    assert!(back.transcription);
}

#[test]
fn settings_column_errors() {
    assert_eq!(settings_from_row("not json", "[]", false).unwrap_err().column, 0);
    assert_eq!(settings_from_row("[]", "{}", false).unwrap_err().column, 1);
    assert_eq!(settings_from_row("[1]", "nope", false).unwrap_err().column, 0);
    let s = settings_from_row("[]", "[\"mkv\"]", false).unwrap();
    assert!(s.dirs.is_empty());
    assert_eq!(s.exts, vec!["mkv".to_string()]);
}

#[test]
fn entry_is_current_only_when_time_and_size_match() {
    assert!(is_entry_upto_date(&Some(entry(5, 10)), 5, 10));
    assert!(!is_entry_upto_date(&Some(entry(5, 10)), 6, 10));
    assert!(!is_entry_upto_date(&Some(entry(5, 10)), 5, 11));
    assert!(!is_entry_upto_date(&None, 5, 10));
}

#[test]
fn no_rows_means_no_segments() {
    assert!(segments_if_any(vec![]).is_none());
    let rows = vec![Segment { start: 1, end: 2, text: "a".to_string() }];
    assert_eq!(segments_if_any(rows.clone()), Some(rows));
}

#[test]
fn error_messages() {
    let s = |e: FolioError| e.message();
    assert_eq!(s(FolioError::IoError("gone".into())), "IO error: gone");
    assert_eq!(s(FolioError::WhisperError("w".into())), "Whisper error: w");
    assert_eq!(s(FolioError::SubtitleParseError("p".into())), "Subtitle parse error: p");
    assert_eq!(s(FolioError::WalkDirError("d".into())), "Walk dir error: d");
    assert_eq!(s(FolioError::MediaError("m".into())), "Media error: m");
    assert_eq!(s(FolioError::FFmpegError("f".into())), "FFmpeg error: f");
    assert_eq!(s(FolioError::TantivyError("t".into())), "Tantivy error: t");
    assert_eq!(s(FolioError::SearchError("s".into())), "Search error: s");
    assert_eq!(s(FolioError::HttpError("h".into())), "HTTP error: h");
    assert_eq!(s(FolioError::DatabaseError("d".into())), "Database error: d");
    assert_eq!(s(FolioError::ImageError("i".into())), "Image error: i");
}

#[test]
fn json_escapes_follow_serde_json() {
    let settings = Settings {
        dirs: vec!["a\u{1}b\tc\\d\u{8}\u{c}\r\n\u{1f}é\u{7f}".to_string(), String::new()],
        exts: vec![],
        transcription: false,
    };
    let row = settings_to_row(&settings);
    assert_eq!(row.dirs_json, "[\"a\\u0001b\\tc\\\\d\\b\\f\\r\\n\\u001fé\u{7f}\",\"\"]");
    assert_eq!(row.exts_json, "[]");
    assert!(!row.transcription);
}

#[test]
fn stored_settings_read_back_unchanged() {
    let settings = Settings {
        dirs: vec!["/x/\"y\"".to_string(), "tab\there".to_string(), "ünï".to_string()],
        exts: vec!["mkv".to_string(), "avi".to_string()],
        transcription: false,
    };
    let row = settings_to_row(&settings);
    let back = settings_from_row(&row.dirs_json, &row.exts_json, row.transcription).unwrap();
    assert_eq!(back.dirs, settings.dirs);
    assert_eq!(back.exts, settings.exts);
    assert_eq!(back.transcription, settings.transcription);
}
