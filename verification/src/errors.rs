//! The error type of the library.
use vstd::prelude::*;

verus! {

/// What can go wrong in Folio. Errors that come from a library outside this crate
/// carry that library's description of the error.
#[derive(Debug, Clone)]
pub enum FolioError {
    IoError(String),
    WhisperError(String),
    SubtitleParseError(String),
    WalkDirError(String),
    MediaError(String),
    FFmpegError(String),
    TantivyError(String),
    SearchError(String),
    HttpError(String),
    DatabaseError(String),
    ImageError(String),
}

/// Results of Folio's operations.
pub type FolioResult<T> = Result<T, FolioError>;

impl FolioError {
    /// The heading of the human-readable message of this error.
    pub open spec fn spec_heading(&self) -> Seq<char> {
        match self {
            FolioError::IoError(_) => "IO error: "@,
            FolioError::WhisperError(_) => "Whisper error: "@,
            FolioError::SubtitleParseError(_) => "Subtitle parse error: "@,
            FolioError::WalkDirError(_) => "Walk dir error: "@,
            FolioError::MediaError(_) => "Media error: "@,
            FolioError::FFmpegError(_) => "FFmpeg error: "@,
            FolioError::TantivyError(_) => "Tantivy error: "@,
            FolioError::SearchError(_) => "Search error: "@,
            FolioError::HttpError(_) => "HTTP error: "@,
            FolioError::DatabaseError(_) => "Database error: "@,
            FolioError::ImageError(_) => "Image error: "@,
        }
    }

    /// The description that this error carries.
    pub open spec fn spec_detail(&self) -> Seq<char> {
        match self {
            FolioError::IoError(d) => d@,
            FolioError::WhisperError(d) => d@,
            FolioError::SubtitleParseError(d) => d@,
            FolioError::WalkDirError(d) => d@,
            FolioError::MediaError(d) => d@,
            FolioError::FFmpegError(d) => d@,
            FolioError::TantivyError(d) => d@,
            FolioError::SearchError(d) => d@,
            FolioError::HttpError(d) => d@,
            FolioError::DatabaseError(d) => d@,
            FolioError::ImageError(d) => d@,
        }
    }

    /// The human-readable message of this error: its heading, then its description.
    /// It is what the error is shown and serialised as.
    pub fn message(&self) -> (res: String)
        ensures
            res@ == self.spec_heading() + self.spec_detail(),
    {
        let (heading, detail) = match self {
            FolioError::IoError(d) => ("IO error: ", d),
            FolioError::WhisperError(d) => ("Whisper error: ", d),
            FolioError::SubtitleParseError(d) => ("Subtitle parse error: ", d),
            FolioError::WalkDirError(d) => ("Walk dir error: ", d),
            FolioError::MediaError(d) => ("Media error: ", d),
            FolioError::FFmpegError(d) => ("FFmpeg error: ", d),
            FolioError::TantivyError(d) => ("Tantivy error: ", d),
            FolioError::SearchError(d) => ("Search error: ", d),
            FolioError::HttpError(d) => ("HTTP error: ", d),
            FolioError::DatabaseError(d) => ("Database error: ", d),
            FolioError::ImageError(d) => ("Image error: ", d),
        };
        let mut res = String::from_str(heading);
        res.append(detail.as_str());
        res
    }
}

/// `e` is a subtitle parse error with the description `m`.
pub open spec fn is_subtitle_error(e: FolioError, m: Seq<char>) -> bool {
    e matches FolioError::SubtitleParseError(d) && d@ == m
}

} // verus!
