use folio::index::{collect_media_files, MediaFile};
use folio::indexing::{actions_after_extraction, actions_for_file, IndexAction};

fn strings(v: &[&str]) -> Vec<String> {
    v.iter().map(|s| s.to_string()).collect()
}

fn pairs(files: &[MediaFile]) -> Vec<(String, Option<String>)> {
    files.iter().map(|f| (f.media.clone(), f.subtitles.clone())).collect()
}

#[test]
fn media_files_pair_with_srt_siblings() {
    let paths = strings(&[
        "/m/a.mp4", "/m/a.srt", "/m/b.MKV", "/m/c.SRT", "/m/c.mp4", "/m/.mp4", "/m/d.txt", "/m/sub.dir/e",
        "/m/f.tar.mp4", "/m/f.tar.srt", "/m/E.MP4",
    ]);
    let exts = strings(&["mp4", "mkv"]);
    let files = collect_media_files(&paths, &exts);
    assert_eq!(
        pairs(&files),
        vec![
            ("/m/a.mp4".to_string(), Some("/m/a.srt".to_string())),
            ("/m/b.MKV".to_string(), None),
            ("/m/c.mp4".to_string(), None),
            ("/m/f.tar.mp4".to_string(), Some("/m/f.tar.srt".to_string())),
            ("/m/E.MP4".to_string(), None),
        ]
    );
}

#[test]
fn srt_is_never_media() {
    let paths = strings(&["/m/x.srt", "/m/y.Srt"]);
    let exts = strings(&["srt"]);
    assert!(collect_media_files(&paths, &exts).is_empty());
}

#[test]
fn extension_lowercasing_is_unicode() {
    let paths = strings(&["/m/film.\u{c9}X"]);
    let exts = strings(&["\u{e9}x"]);
    let files = collect_media_files(&paths, &exts);
    assert_eq!(pairs(&files), vec![("/m/film.\u{c9}X".to_string(), None)]);
}

#[test]
fn index_steps() {
    let with = MediaFile { media: "/m/a.mp4".to_string(), subtitles: Some("/m/a.srt".to_string()) };
    let without = MediaFile { media: "/m/b.mp4".to_string(), subtitles: None };
    assert!(actions_for_file(&with, true).is_empty());
    assert!(actions_for_file(&without, true).is_empty());
    assert_eq!(
        actions_for_file(&with, false),
        vec![IndexAction::ReportProgress, IndexAction::Record { has_subtitles: true }, IndexAction::ExtractEmbedded]
    );
    assert_eq!(
        actions_for_file(&without, false),
        vec![IndexAction::ReportProgress, IndexAction::Record { has_subtitles: false }]
    );
}

#[test]
fn actions_after_an_extraction() {
    assert_eq!(
        actions_after_extraction(true),
        vec![IndexAction::StoreSegments, IndexAction::Record { has_subtitles: true }, IndexAction::AddToSearch]
    );
    assert_eq!(
        actions_after_extraction(false),
        vec![IndexAction::Record { has_subtitles: true }, IndexAction::AddToSearch]
    );
}
