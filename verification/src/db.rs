//! What the index database stores: indexed files and settings, and the decisions
//! taken on them.
use vstd::prelude::*;
use crate::index::string_views;
use crate::text::join_with;
use crate::subtitles::{Segment, segment_views};

verus! {

/// A media file as the index database records it.
#[derive(Debug, Clone)]
pub struct IndexedFile {
    pub path: String,
    pub modified_at: i64,
    pub file_size: i64,
    pub has_subtitles: bool,
    pub transcription_model: Option<String>,
}

/// The user's settings: the directories to index, the media extensions to index, and
/// whether to transcribe.
#[derive(Debug, Clone)]
pub struct Settings {
    pub dirs: Vec<String>,
    pub exts: Vec<String>,
    pub transcription: bool,
}

/// The settings as the database row holds them: both lists as JSON text.
#[derive(Debug, Clone)]
pub struct SettingsRow {
    pub dirs_json: String,
    pub exts_json: String,
    pub transcription: bool,
}

#[verifier::external_type_specification]
#[verifier::external_body]
pub struct ExJsonError(serde_json::Error);

/// A column of the settings row whose JSON text did not decode.
#[derive(Debug)]
pub struct ColumnDecodeError {
    /// The index of the column in the row: 0 for the directories, 1 for the extensions.
    pub column: usize,
    pub error: serde_json::Error,
}

/// The lowercase hexadecimal digit of `n`, for `0 <= n < 16`.
pub open spec fn hex_digit(n: int) -> char {
    if n < 10 {
        ('0' as int + n) as char
    } else {
        ('a' as int + n - 10) as char
    }
}

/// How a character stands inside a JSON string as serde_json writes it: the quote
/// and the backslash behind a backslash, the five usual control characters by their
/// short escapes, the other characters below U+0020 as `\u00` and two lowercase
/// hexadecimal digits, and every other character as itself.
pub open spec fn json_escaped_char(c: char) -> Seq<char> {
    if c == '"' {
        seq!['\\', '"']
    } else if c == '\\' {
        seq!['\\', '\\']
    } else if c == '\u{08}' {
        seq!['\\', 'b']
    } else if c == '\t' {
        seq!['\\', 't']
    } else if c == '\n' {
        seq!['\\', 'n']
    } else if c == '\u{0c}' {
        seq!['\\', 'f']
    } else if c == '\r' {
        seq!['\\', 'r']
    } else if (c as u32) < 0x20 {
        seq!['\\', 'u', '0', '0', hex_digit((c as int) / 16), hex_digit((c as int) % 16)]
    } else {
        seq![c]
    }
}

/// The characters of `s`, each escaped for a JSON string.
pub open spec fn json_escaped(s: Seq<char>) -> Seq<char>
    decreases s.len(),
{
    if s.len() == 0 {
        Seq::<char>::empty()
    } else {
        json_escaped_char(s[0]) + json_escaped(s.drop_first())
    }
}

/// `s` as a JSON string: escaped, between double quotes.
pub open spec fn json_string(s: Seq<char>) -> Seq<char> {
    seq!['"'] + json_escaped(s) + seq!['"']
}

/// The JSON text that `serde_json::to_string` writes for a list of strings: the
/// strings as JSON strings, separated by commas, between square brackets.
pub open spec fn json_string_list(items: Seq<Seq<char>>) -> Seq<char> {
    seq!['['] + join_with(items.map_values(|s: Seq<char>| json_string(s)), seq![',']) + seq![']']
}

/// The list of strings that `serde_json::from_str::<Vec<String>>` reads from `text`,
/// or `None` where it fails.
pub uninterp spec fn parse_json_string_list(text: Seq<char>) -> Option<Seq<Seq<char>>>;

/// `serde_json::to_string` on a list of strings. serde_json documents that writing
/// fails only where a `Serialize` implementation fails or a map has a key that is not a
/// string; neither can happen for strings, so success is stated. The text is the one
/// that its compact formatter writes (`json_string_list`), and serde_json's reader
/// reads every such text back as the same list of strings.
#[verifier::external_body]
fn write_string_list(items: &Vec<String>) -> (res: Result<String, serde_json::Error>)
    ensures
        res is Ok,
        res matches Ok(s) ==> s@ == json_string_list(string_views(items@)),
        res matches Ok(s) ==> parse_json_string_list(s@) == Some(string_views(items@)),
{
    serde_json::to_string(items)
}

/// `serde_json::from_str::<Vec<String>>`. Trusted to succeed exactly where
/// `parse_json_string_list` is `Some`, with that list; what it accepts is not stated.
#[verifier::external_body]
fn read_string_list(text: &str) -> (res: Result<Vec<String>, serde_json::Error>)
    ensures
        res is Ok <==> parse_json_string_list(text@) is Some,
        res matches Ok(v) ==> Some(string_views(v@)) == parse_json_string_list(text@),
{
    serde_json::from_str(text)
}

/// What reading a settings row gives: the directories, the extensions and the
/// transcription flag, or the index in the row of the first column (directories
/// first) whose JSON does not decode.
pub open spec fn read_settings(dirs_json: Seq<char>, exts_json: Seq<char>, transcription: bool) -> Result<(Seq<Seq<char>>, Seq<Seq<char>>, bool), usize> {
    match parse_json_string_list(dirs_json) {
        None => Err(0),
        Some(dirs) => match parse_json_string_list(exts_json) {
            None => Err(1),
            Some(exts) => Ok((dirs, exts, transcription)),
        },
    }
}

/// The row that stores `settings`: both lists written as JSON. Reading the row back
/// gives the same settings.
pub fn settings_to_row(settings: &Settings) -> (row: SettingsRow)
    ensures
        row.dirs_json@ == json_string_list(string_views(settings.dirs@)),
        row.exts_json@ == json_string_list(string_views(settings.exts@)),
        row.transcription == settings.transcription,
        read_settings(row.dirs_json@, row.exts_json@, row.transcription) == Ok::<_, usize>((
            string_views(settings.dirs@),
            string_views(settings.exts@),
            settings.transcription,
        )),
{
    let dirs_json = write_string_list(&settings.dirs).unwrap();
    let exts_json = write_string_list(&settings.exts).unwrap();
    SettingsRow { dirs_json, exts_json, transcription: settings.transcription }
}

/// The settings that a row stores. The directories' JSON is read first; the first
/// column that does not decode is the error, with its index in the row.
pub fn settings_from_row(dirs_json: &str, exts_json: &str, transcription: bool) -> (res: Result<Settings, ColumnDecodeError>)
    ensures
        match read_settings(dirs_json@, exts_json@, transcription) {
            Err(column) => res matches Err(e) && e.column == column,
            Ok((dirs, exts, t)) => res matches Ok(s) && string_views(s.dirs@) == dirs
                && string_views(s.exts@) == exts && s.transcription == t,
        },
{
    let dirs = match read_string_list(dirs_json) {
        Ok(v) => v,
        Err(error) => return Err(ColumnDecodeError { column: 0, error }),
    };
    let exts = match read_string_list(exts_json) {
        Ok(v) => v,
        Err(error) => return Err(ColumnDecodeError { column: 1, error }),
    };
    Ok(Settings { dirs, exts, transcription })
}

/// Whether the recorded entry of a file still describes it: there is an entry, and
/// its modification time and size are the ones given.
pub fn is_entry_upto_date(entry: &Option<IndexedFile>, modified_at: i64, file_size: i64) -> (res: bool)
    ensures
        res == (entry matches Some(e) && e.modified_at == modified_at && e.file_size == file_size),
{
    match entry {
        Some(e) => e.modified_at == modified_at && e.file_size == file_size,
        None => false,
    }
}

/// The stored segments of a file, or `None` where there are none.
pub fn segments_if_any(rows: Vec<Segment>) -> (res: Option<Vec<Segment>>)
    ensures
        rows@.len() == 0 ==> res is None,
        rows@.len() > 0 ==> (res matches Some(v) && segment_views(v@) == segment_views(rows@)),
{
    if rows.len() == 0 {
        None
    } else {
        Some(rows)
    }
}

} // verus!
