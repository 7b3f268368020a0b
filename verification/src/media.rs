//! What kind of media a file is, judged by its extension.

use vstd::prelude::*;
use crate::paths::{extension, extension_of};
use crate::text::{lowercase, lowercase_of, text_eq};

verus! {

/// The classes of media that the tree tells apart.
#[derive(Debug, PartialEq, Eq, Clone, Copy, Structural)]
pub enum FileType {
    Video,
    Audio,
    Image,
    Other,
}

/// The lowercase extensions of video files.
pub open spec fn is_video_extension(e: Seq<char>) -> bool {
    e == "mp4"@ || e == "mkv"@ || e == "avi"@ || e == "mov"@
}

/// The lowercase extensions of audio files.
pub open spec fn is_audio_extension(e: Seq<char>) -> bool {
    e == "mp3"@ || e == "flac"@ || e == "wav"@ || e == "aac"@
}

/// The lowercase extensions of image files.
pub open spec fn is_image_extension(e: Seq<char>) -> bool {
    e == "jpg"@ || e == "jpeg"@ || e == "png"@ || e == "gif"@
}

/// The class of a lowercase extension.
pub open spec fn type_of_extension(e: Seq<char>) -> FileType {
    if is_video_extension(e) {
        FileType::Video
    } else if is_audio_extension(e) {
        FileType::Audio
    } else if is_image_extension(e) {
        FileType::Image
    } else {
        FileType::Other
    }
}

/// The class of a file with the given extension, which is taken as it
/// stands: `mp4` is a video, `MP4` is not in the table.
pub fn file_type_for_extension(ext: &str) -> (r: FileType)
    ensures
        r == type_of_extension(ext@),
{
    if text_eq(ext, "mp4") || text_eq(ext, "mkv") || text_eq(ext, "avi") || text_eq(ext, "mov") {
        FileType::Video
    } else if text_eq(ext, "mp3") || text_eq(ext, "flac") || text_eq(ext, "wav") || text_eq(
        ext,
        "aac",
    ) {
        FileType::Audio
    } else if text_eq(ext, "jpg") || text_eq(ext, "jpeg") || text_eq(ext, "png") || text_eq(
        ext,
        "gif",
    ) {
        FileType::Image
    } else {
        FileType::Other
    }
}

/// The class of the entry at `path`: a directory is `Other`, a file goes by
/// the lowercase form of its extension.
pub open spec fn file_type_of(path: Seq<char>, is_dir: bool) -> FileType {
    if is_dir {
        FileType::Other
    } else {
        match extension_of(path) {
            Some(e) => type_of_extension(lowercase_of(e)),
            None => FileType::Other,
        }
    }
}

/// Classifies the entry at `path` by its extension, whatever its case.
pub fn detect_file_type(path: &str, is_dir: bool) -> (r: FileType)
    ensures
        r == file_type_of(path@, is_dir),
{
    if is_dir {
        FileType::Other
    } else {
        match extension(path) {
            Some(ext) => {
                let lower = lowercase(ext);
                file_type_for_extension(lower.as_str())
            },
            None => FileType::Other,
        }
    }
}

/// The lowercase extensions that a browser shows without transcoding:
/// some video, audio and image formats, and common documents.
pub open spec fn streamable_extension(e: Seq<char>) -> bool {
    ||| e == "mp4"@ || e == "webm"@ || e == "mov"@
    ||| e == "mp3"@ || e == "ogg"@ || e == "wav"@ || e == "flac"@ || e == "aac"@
    ||| e == "jpg"@ || e == "jpeg"@ || e == "png"@ || e == "gif"@ || e == "bmp"@ || e == "webp"@
        || e == "svg"@
    ||| e == "pdf"@ || e == "txt"@ || e == "csv"@ || e == "html"@ || e == "htm"@ || e == "md"@
    ||| e == "doc"@ || e == "xls"@ || e == "xlsx"@
}

/// Whether a file with the given extension, taken as it stands, is served
/// to a browser directly.
pub fn extension_is_streamable(ext: &str) -> (r: bool)
    ensures
        r == streamable_extension(ext@),
{
    let video = text_eq(ext, "mp4") || text_eq(ext, "webm") || text_eq(ext, "mov");
    let audio = text_eq(ext, "mp3") || text_eq(ext, "ogg") || text_eq(ext, "wav") || text_eq(
        ext,
        "flac",
    ) || text_eq(ext, "aac");
    let image = text_eq(ext, "jpg") || text_eq(ext, "jpeg") || text_eq(ext, "png") || text_eq(
        ext,
        "gif",
    ) || text_eq(ext, "bmp") || text_eq(ext, "webp") || text_eq(ext, "svg");
    let text = text_eq(ext, "pdf") || text_eq(ext, "txt") || text_eq(ext, "csv") || text_eq(
        ext,
        "html",
    ) || text_eq(ext, "htm") || text_eq(ext, "md");
    let office = text_eq(ext, "doc") || text_eq(ext, "xls") || text_eq(ext, "xlsx");
    video || audio || image || text || office
}

/// Whether the file at `path` is served to a browser directly: it has an
/// extension whose lowercase form is streamable.
pub open spec fn browser_supported(path: Seq<char>) -> bool {
    match extension_of(path) {
        Some(e) => streamable_extension(lowercase_of(e)),
        None => false,
    }
}

/// Whether a browser shows the file at `path` without transcoding.
pub fn is_browser_supported(path: &str) -> (r: bool)
    ensures
        r == browser_supported(path@),
{
    match extension(path) {
        Some(ext) => {
            let lower = lowercase(ext);
            extension_is_streamable(lower.as_str())
        },
        None => false,
    }
}

/// The media type that goes with a path's extension.
pub uninterp spec fn guessed_mime(path: Seq<char>) -> Seq<char>;

/// `mime_guess::from_path` followed by `first_or_octet_stream`, written out
/// as text. The guess is a table lookup by the path's extension, so the
/// contract only names it.
#[verifier::external_body]
fn guess_mime(path: &str) -> (r: String)
    ensures
        r@ == guessed_mime(path@),
{
    mime_guess::from_path(path).first_or_octet_stream().as_ref().to_string()
}

/// The content type under which the file at `path` is served.
pub fn get_mime_type(path: &str) -> (r: String)
    ensures
        r@ == guessed_mime(path@),
{
    guess_mime(path)
}

/// A point in time: whole seconds since 1970-01-01T00:00:00Z, and the
/// nanoseconds past that second.
#[derive(Debug, PartialEq, Eq, Clone, Copy, Structural)]
pub struct Timestamp {
    pub secs: i64,
    pub nanos: u32,
}

/// The nanoseconds in a second.
pub const NANOS_PER_SEC: u32 = 1_000_000_000;

/// The instant of a timestamp, in nanoseconds since the start of 1970.
pub open spec fn instant_of(t: Timestamp) -> int {
    t.secs * NANOS_PER_SEC + t.nanos
}

impl Timestamp {
    /// The point in time `secs` seconds and `nanos` nanoseconds after the
    /// start of 1970; none where the seconds are too many to count.
    pub fn after_epoch(secs: u64, nanos: u32) -> (r: Option<Timestamp>)
        ensures
            r is Some <==> secs <= i64::MAX,
            r matches Some(t) ==> instant_of(t) == secs * NANOS_PER_SEC + nanos && t.nanos
                == nanos,
    {
        if secs > i64::MAX as u64 {
            None
        } else {
            Some(Timestamp { secs: secs as i64, nanos: nanos })
        }
    }

    /// The point in time `secs` seconds and `nanos` nanoseconds before
    /// the start of 1970, `nanos` being less than a second; none where
    /// it is not, or where the seconds are too many to count.
    pub fn before_epoch(secs: u64, nanos: u32) -> (r: Option<Timestamp>)
        ensures
            r is Some <==> secs < i64::MAX && nanos < NANOS_PER_SEC,
            r matches Some(t) ==> instant_of(t) == -(secs * NANOS_PER_SEC + nanos) && t.nanos
                < NANOS_PER_SEC,
    {
        if secs >= i64::MAX as u64 || nanos >= NANOS_PER_SEC {
            None
        } else if nanos == 0 {
            Some(Timestamp { secs: -(secs as i64), nanos: 0 })
        } else {
            Some(Timestamp { secs: -(secs as i64) - 1, nanos: NANOS_PER_SEC - nanos })
        }
    }
}

/// A point in time in RFC 3339, in UTC; none where the calendar cannot
/// hold it.
pub uninterp spec fn rfc3339_of(secs: i64, nanos: u32) -> Option<Seq<char>>;

/// `chrono::DateTime::<Utc>::from_timestamp` followed by `to_rfc3339`.
/// The first returns `None` for seconds out of range or invalid
/// nanoseconds, the second formats what the first returned.
#[verifier::external_body]
fn format_rfc3339(secs: i64, nanos: u32) -> (r: Option<String>)
    ensures
        match r {
            Some(s) => rfc3339_of(secs, nanos) == Some(s@),
            None => rfc3339_of(secs, nanos) is None,
        },
{
    chrono::DateTime::<chrono::Utc>::from_timestamp(secs, nanos).map(|t| t.to_rfc3339())
}

/// The text of an entry's last modification, where one was obtained.
pub open spec fn modified_text(stamp: Option<Timestamp>) -> Option<Seq<char>> {
    match stamp {
        Some(t) => rfc3339_of(t.secs, t.nanos),
        None => None,
    }
}

/// The last modification time in RFC 3339, or `None` where it is unknown.
pub fn get_modified_time(stamp: Option<Timestamp>) -> (r: Option<String>)
    ensures
        match r {
            Some(s) => modified_text(stamp) == Some(s@),
            None => modified_text(stamp) is None,
        },
{
    match stamp {
        Some(t) => format_rfc3339(t.secs, t.nanos),
        None => None,
    }
}

} // verus!
