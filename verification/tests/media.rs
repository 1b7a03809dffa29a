use folio::errors::FolioError;
use folio::media::{
    ass_dialogue_text, png_data_url, packet_interval, seek_position, shrunk_side, subtitle_segment, thumbnail_second, RawFrame,
    SubtitleRect,
};
use folio::subtitles::Segment;

#[test]
fn shrunk_side_never_reaches_zero() {
    assert_eq!(shrunk_side(1920, 6), 320);
    assert_eq!(shrunk_side(100, 6), 16);
    assert_eq!(shrunk_side(3, 6), 1);
    assert_eq!(shrunk_side(0, 1), 1);
}

#[test]
fn small_buffer_is_a_media_error() {
    let frame = RawFrame { data: vec![0; 7], width: 2, height: 1 };
    match frame.to_base64_png() {
        Err(FolioError::MediaError(m)) => assert_eq!(m, "Failed to create image from raw frame"),
        other => panic!("unexpected {:?}", other),
    }
}

#[test]
fn frame_becomes_png_data_url() {
    let frame = RawFrame { data: vec![255, 0, 0, 255, 9, 9], width: 1, height: 1 };
    let url = frame.to_base64_png().unwrap();
    // "iVBORw0KGgo" is the Base64 of the PNG signature
    assert!(url.starts_with("data:image/png;base64,iVBORw0KGgo"), "{}", url);
    assert_eq!((url.len() - "data:image/png;base64,".len()) % 4, 0);
}

#[test]
fn ass_text_is_the_tenth_field() {
    assert_eq!(
        ass_dialogue_text("0,0,Default,,0,0,0,,x, Hello, world ").as_deref(),
        Some("Hello, world")
    );
    assert_eq!(ass_dialogue_text("a,b,c,d,e,f,g,h,i,"), Some(String::new()));
    assert_eq!(ass_dialogue_text("a,b,c,d,e,f,g,h,i"), None);
}

#[test]
fn rectangles_give_segments_with_text() {
    assert_eq!(
        subtitle_segment(1, 2, &SubtitleRect::Text("hi".to_string())),
        Some(Segment { start: 1, end: 2, text: "hi".to_string() })
    );
    assert_eq!(subtitle_segment(1, 2, &SubtitleRect::Text(String::new())), None);
    assert_eq!(subtitle_segment(1, 2, &SubtitleRect::Other), None);
    assert_eq!(subtitle_segment(1, 2, &SubtitleRect::Ass("a,b,c,d,e,f,g,h,i,  ".to_string())), None);
    assert_eq!(
        subtitle_segment(3, 4, &SubtitleRect::Ass("0,0,Default,,0,0,0,,x,Line".to_string())),
        Some(Segment { start: 3, end: 4, text: "Line".to_string() })
    );
}

#[test]
fn packet_interval_scales_by_time_base() {
    assert_eq!(packet_interval(Some(90_000), 45_000, 1, 90_000), Some((1000, 1500)));
    assert_eq!(packet_interval(None, 2, 1, 1000), Some((0, 2)));
    assert_eq!(packet_interval(Some(-3), 0, 1, 2), Some((-1500, -1500)));
    assert_eq!(packet_interval(Some(7), 7, 1, 3), Some((2333, 4666)));
}

#[test]
fn packet_interval_saturates_and_detects_panics() {
    assert_eq!(packet_interval(Some(i64::MAX), 0, 2, 1), Some((i64::MAX, i64::MAX)));
    assert_eq!(packet_interval(Some(i64::MAX), 1, 2, 1), None);
    assert_eq!(packet_interval(Some(1), 1, 1, 0), None);
    assert_eq!(packet_interval(Some(i64::MIN), 0, 1, -1), None);
}

#[test]
fn thumbnail_second_is_the_middle() {
    let s = Segment { start: 1000, end: 3000, text: String::new() };
    assert_eq!(thumbnail_second(&s), Some(2));
    let s = Segment { start: -3000, end: 0, text: String::new() };
    assert_eq!(thumbnail_second(&s), Some(-1));
    let s = Segment { start: i64::MAX, end: 1, text: String::new() };
    assert_eq!(thumbnail_second(&s), None);
}

#[test]
fn seek_position_in_microseconds() {
    assert_eq!(seek_position(2), Some(2_000_000));
    assert_eq!(seek_position(i64::MAX), None);
}

#[test]
fn data_url_is_standard_base64() {
    assert_eq!(png_data_url(b""), "data:image/png;base64,");
    assert_eq!(png_data_url(b"f"), "data:image/png;base64,Zg==");
    assert_eq!(png_data_url(b"fo"), "data:image/png;base64,Zm8=");
    assert_eq!(png_data_url(b"foo"), "data:image/png;base64,Zm9v");
    assert_eq!(png_data_url(b"foobar"), "data:image/png;base64,Zm9vYmFy");
    assert_eq!(png_data_url(&[0xff, 0xfe, 0x3e]), "data:image/png;base64,//4+");
}

#[test]
fn empty_frame_is_an_image_error() {
    let frame = RawFrame { data: vec![], width: 0, height: 0 };
    match frame.to_base64_png() {
        Err(FolioError::ImageError(m)) => assert!(!m.is_empty()),
        other => panic!("unexpected {:?}", other),
    }
}
