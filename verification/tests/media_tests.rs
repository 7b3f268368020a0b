use mediatree::media::{
    detect_file_type, extension_is_streamable, file_type_for_extension, get_mime_type,
    get_modified_time, is_browser_supported, FileType, Timestamp,
};

#[test]
fn video_extensions_are_video() {
    for name in ["a.mp4", "a.mkv", "a.avi", "a.mov"] {
        assert_eq!(detect_file_type(name, false), FileType::Video);
    }
}

#[test]
fn audio_extensions_are_audio() {
    for name in ["a.mp3", "a.flac", "a.wav", "a.aac"] {
        assert_eq!(detect_file_type(name, false), FileType::Audio);
    }
}

#[test]
fn image_extensions_are_image() {
    for name in ["a.jpg", "a.jpeg", "a.png", "a.gif"] {
        assert_eq!(detect_file_type(name, false), FileType::Image);
    }
}

#[test]
fn unknown_or_missing_extension_is_other() {
    assert_eq!(detect_file_type("notes.txt", false), FileType::Other);
    assert_eq!(detect_file_type("README", false), FileType::Other);
    assert_eq!(detect_file_type(".mp4", false), FileType::Other);
    assert_eq!(detect_file_type("", false), FileType::Other);
}

#[test]
fn directory_is_other_whatever_its_name() {
    assert_eq!(detect_file_type("clips.mp4", true), FileType::Other);
}

#[test]
fn extension_case_does_not_matter() {
    assert_eq!(detect_file_type("CLIP.MP4", false), FileType::Video);
    assert_eq!(detect_file_type("song.Mp3", false), FileType::Audio);
    assert_eq!(detect_file_type("dir/Photo.JPEG", false), FileType::Image);
}

#[test]
fn extension_table_is_case_sensitive_by_itself() {
    assert_eq!(file_type_for_extension("mp4"), FileType::Video);
    assert_eq!(file_type_for_extension("MP4"), FileType::Other);
    assert_eq!(file_type_for_extension(""), FileType::Other);
}

#[test]
fn only_the_last_extension_counts() {
    assert_eq!(detect_file_type("a.mp4.txt", false), FileType::Other);
    assert_eq!(detect_file_type("a.txt.mp4", false), FileType::Video);
}

#[test]
fn streamable_table() {
    let yes = [
        "mp4", "webm", "mov", "mp3", "ogg", "wav", "flac", "aac", "jpg", "jpeg", "png", "gif",
        "bmp", "webp", "svg", "pdf", "txt", "csv", "html", "htm", "md", "doc", "xls", "xlsx",
    ];
    for ext in yes {
        assert!(extension_is_streamable(ext), "{ext}");
    }
    for ext in ["mkv", "avi", "docx", "", "MP4", "zip"] {
        assert!(!extension_is_streamable(ext), "{ext}");
    }
}

#[test]
fn recognized_video_may_need_transcoding() {
    assert_eq!(detect_file_type("film.mkv", false), FileType::Video);
    assert!(!is_browser_supported("film.mkv"));
    assert_eq!(detect_file_type("paper.pdf", false), FileType::Other);
    assert!(is_browser_supported("paper.pdf"));
}

#[test]
fn browser_support_ignores_case_and_needs_an_extension() {
    assert!(is_browser_supported("a/b/CLIP.WEBM"));
    assert!(!is_browser_supported("webm"));
    assert!(!is_browser_supported(".webm"));
    assert!(!is_browser_supported(""));
}

#[test]
fn mime_type_goes_by_extension() {
    assert_eq!(get_mime_type("clip.mp4"), "video/mp4");
    assert_eq!(get_mime_type("a/b/photo.PNG"), "image/png");
    assert_eq!(get_mime_type("no_extension"), "application/octet-stream");
    assert_eq!(get_mime_type("what.unknownext"), "application/octet-stream");
}

#[test]
fn modified_time_is_rfc3339_in_utc() {
    let epoch = get_modified_time(Some(Timestamp { secs: 0, nanos: 0 }));
    assert_eq!(epoch.as_deref(), Some("1970-01-01T00:00:00+00:00"));
    let later = get_modified_time(Some(Timestamp { secs: 1_431_648_000, nanos: 500_000_000 }));
    assert_eq!(later.as_deref(), Some("2015-05-15T00:00:00.500+00:00"));
    let before = get_modified_time(Some(Timestamp { secs: -1, nanos: 0 }));
    assert_eq!(before.as_deref(), Some("1969-12-31T23:59:59+00:00"));
}

#[test]
fn modified_time_unknown_or_out_of_range_is_none() {
    assert_eq!(get_modified_time(None), None);
    assert_eq!(get_modified_time(Some(Timestamp { secs: i64::MAX, nanos: 0 })), None);
    assert_eq!(get_modified_time(Some(Timestamp { secs: 0, nanos: 2_000_000_000 })), None);
}

#[test]
fn timestamps_after_the_epoch() {
    assert_eq!(Timestamp::after_epoch(0, 0), Some(Timestamp { secs: 0, nanos: 0 }));
    assert_eq!(Timestamp::after_epoch(5, 7), Some(Timestamp { secs: 5, nanos: 7 }));
    assert_eq!(
        Timestamp::after_epoch(i64::MAX as u64, 999_999_999),
        Some(Timestamp { secs: i64::MAX, nanos: 999_999_999 })
    );
    assert_eq!(Timestamp::after_epoch(i64::MAX as u64 + 1, 0), None);
    assert_eq!(Timestamp::after_epoch(u64::MAX, 0), None);
}

#[test]
fn timestamps_before_the_epoch() {
    assert_eq!(Timestamp::before_epoch(0, 0), Some(Timestamp { secs: 0, nanos: 0 }));
    assert_eq!(Timestamp::before_epoch(5, 0), Some(Timestamp { secs: -5, nanos: 0 }));
    // half a second before 1970 is second -1 and half a second
    assert_eq!(
        Timestamp::before_epoch(0, 500_000_000),
        Some(Timestamp { secs: -1, nanos: 500_000_000 })
    );
    assert_eq!(Timestamp::before_epoch(5, 1), Some(Timestamp { secs: -6, nanos: 999_999_999 }));
    assert_eq!(Timestamp::before_epoch(5, 1_000_000_000), None);
    assert_eq!(Timestamp::before_epoch(i64::MAX as u64, 0), None);
    assert_eq!(
        Timestamp::before_epoch(i64::MAX as u64 - 1, 1),
        Some(Timestamp { secs: i64::MIN + 1, nanos: 999_999_999 })
    );
}

#[test]
fn a_time_before_the_epoch_is_written_like_any_other() {
    let t = Timestamp::before_epoch(0, 500_000_000).unwrap();
    assert_eq!(get_modified_time(Some(t)).as_deref(), Some("1969-12-31T23:59:59.500+00:00"));
}
