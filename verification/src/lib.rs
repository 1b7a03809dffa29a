//! Folio: indexing of media files and their subtitles.
pub mod text;
pub mod number;
pub mod errors;
pub mod subtitles;
pub mod index;
pub mod db;
pub mod media;
pub mod indexing;
