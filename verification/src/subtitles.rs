//! SubRip (`.srt`) subtitles: timestamps, parsing and generation.
use vstd::prelude::*;
use crate::errors::{FolioError, is_subtitle_error};
use crate::number::{
    decimal, decimal_chars, digit_char, fits_i64, is_digit, is_numeral_char, lemma_decimal, lemma_parse_zero_padded,
    lemma_zero_padded_chars, parse_i64, parse_i64_chars, trunc_div, trunc_rem, zero_padded, zero_padded_chars, zeros,
};
use crate::text::{
    append_chars, chars_of, is_white_space, join_chars_from, join_with, lemma_join_front, lemma_join_lacks, lemma_join_split,
    lemma_occurs_single, lemma_split_absent, lemma_trim_idempotent, lemma_split_first, lemma_split_join, lemma_split_nonempty, lemma_trim_unchanged,
    message_with, occurs_at, replace_all, replace_chars, split_chars, split_on, string_from_chars, trim, trim_chars,
    trim_end, trim_start, views,
};

verus! {

/// One subtitle: shown from `start` to `end` (milliseconds), reading `text`.
#[derive(Debug, Clone, PartialEq)]
pub struct Segment {
    pub start: i64,
    pub end: i64,
    pub text: String,
}

/// The mathematical value of a [`Segment`].
pub struct SegmentView {
    pub start: i64,
    pub end: i64,
    pub text: Seq<char>,
}

impl View for Segment {
    type V = SegmentView;

    open spec fn view(&self) -> SegmentView {
        SegmentView { start: self.start, end: self.end, text: self.text@ }
    }
}

/// The values of a sequence of segments.
pub open spec fn segment_views(s: Seq<Segment>) -> Seq<SegmentView> {
    s.map_values(|x: Segment| x@)
}

// ---------------------------------------------------------------------------
// Timestamps

/// `h * 3_600_000 + m * 60_000 + s * 1000 + ms` in `i64` arithmetic, or `None` where
/// one of its steps leaves the range of `i64` (where Rust's arithmetic panics).
pub open spec fn timestamp_total(h: i64, m: i64, s: i64, ms: i64) -> Option<i64> {
    let a = h * 3_600_000;
    let b = m * 60_000;
    let c = s * 1000;
    if fits_i64(a) && fits_i64(b) && fits_i64(a + b) && fits_i64(c) && fits_i64(a + b + c)
        && fits_i64(a + b + c + ms) {
        Some((a + b + c + ms) as i64)
    } else {
        None
    }
}

/// What parsing a `HH:MM:SS,mmm` timestamp gives: `Some(Ok(ms))`, `Some(Err(message))`
/// for a subtitle parse error with that message, or `None` where the total leaves the
/// range of `i64`.
pub open spec fn spec_parse_timestamp(ts: Seq<char>) -> Option<Result<i64, Seq<char>>> {
    let parts = split_on(ts, seq![':']);
    if parts.len() != 3 {
        Some(Err("Invalid timestamp: "@ + ts))
    } else {
        match parse_i64(trim(parts[0])) {
            None => Some(Err("Invalid hours: "@ + parts[0])),
            Some(h) => match parse_i64(trim(parts[1])) {
                None => Some(Err("Invalid minutes: "@ + parts[1])),
                Some(m) => {
                    let sec = split_on(parts[2], seq![',']);
                    if sec.len() != 2 {
                        Some(Err("Invalid seconds: "@ + parts[2]))
                    } else {
                        match parse_i64(trim(sec[0])) {
                            None => Some(Err("Invalid seconds: "@ + sec[0])),
                            Some(s) => match parse_i64(trim(sec[1])) {
                                None => Some(Err("Invalid milliseconds: "@ + sec[1])),
                                Some(ms) => match timestamp_total(h, m, s, ms) {
                                    None => None,
                                    Some(v) => Some(Ok(v)),
                                },
                            },
                        }
                    }
                },
            },
        }
    }
}

/// `ms` written as `HH:MM:SS,mmm`: each field zero-padded (to 2, 2, 2 and 3 places),
/// with the fields computed by Rust's truncating `/` and `%`.
pub open spec fn spec_format_timestamp(ms: i64) -> Seq<char> {
    zero_padded(trunc_div(ms as int, 3_600_000), 2) + seq![':']
        + zero_padded(trunc_div(trunc_rem(ms as int, 3_600_000), 60_000), 2) + seq![':']
        + zero_padded(trunc_div(trunc_rem(ms as int, 60_000), 1000), 2) + seq![',']
        + zero_padded(trunc_rem(ms as int, 1000), 3)
}

/// `res` is what `spec` describes: the same value, or a subtitle parse error with the
/// described message.
pub open spec fn outcome_matches<T, V>(res: Result<T, FolioError>, spec: Result<V, Seq<char>>, view: spec_fn(T) -> V) -> bool {
    match spec {
        Ok(v) => res matches Ok(t) && view(t) == v,
        Err(m) => res matches Err(e) && is_subtitle_error(e, m),
    }
}

/// Parses one integer field of a timestamp, trimmed first.
fn parse_field(field: &Vec<char>) -> (res: Option<i64>)
    ensures
        res == parse_i64(trim(field@)),
{
    let t = trim_chars(field);
    parse_i64_chars(&t)
}

/// Totals the fields of a timestamp, or `None` where `i64` arithmetic would overflow.
fn total_ms(h: i64, m: i64, s: i64, ms: i64) -> (res: Option<i64>)
    ensures
        res == timestamp_total(h, m, s, ms),
{
    let a = h as i128 * 3_600_000;
    let b = m as i128 * 60_000;
    let c = s as i128 * 1000;
    let min = i64::MIN as i128;
    let max = i64::MAX as i128;
    if min <= a && a <= max && min <= b && b <= max && min <= a + b && a + b <= max && min <= c && c <= max
        && min <= a + b + c && a + b + c <= max && min <= a + b + c + ms as i128 && a + b + c + ms as i128 <= max {
        Some((a + b + c + ms as i128) as i64)
    } else {
        None
    }
}

/// Parses a timestamp held as characters.
pub fn parse_timestamp_chars(ts: &Vec<char>) -> (res: Option<Result<i64, FolioError>>)
    ensures
        match spec_parse_timestamp(ts@) {
            None => res is None,
            Some(o) => res matches Some(r) && outcome_matches(r, o, |v: i64| v),
        },
{
    let colon = vec![':'];
    let parts = split_chars(ts, &colon);
    assert(colon@ =~= seq![':']);
    if parts.len() != 3 {
        return Some(Err(FolioError::SubtitleParseError(message_with("Invalid timestamp: ", ts))));
    }
    assert(parts[0]@ == views(parts@)[0]);
    assert(parts[1]@ == views(parts@)[1]);
    assert(parts[2]@ == views(parts@)[2]);
    let h = match parse_field(&parts[0]) {
        None => return Some(Err(FolioError::SubtitleParseError(message_with("Invalid hours: ", &parts[0])))),
        Some(h) => h,
    };
    let m = match parse_field(&parts[1]) {
        None => return Some(Err(FolioError::SubtitleParseError(message_with("Invalid minutes: ", &parts[1])))),
        Some(m) => m,
    };
    let comma = vec![','];
    let sec = split_chars(&parts[2], &comma);
    assert(comma@ =~= seq![',']);
    if sec.len() != 2 {
        return Some(Err(FolioError::SubtitleParseError(message_with("Invalid seconds: ", &parts[2]))));
    }
    assert(sec[0]@ == views(sec@)[0]);
    assert(sec[1]@ == views(sec@)[1]);
    let s = match parse_field(&sec[0]) {
        None => return Some(Err(FolioError::SubtitleParseError(message_with("Invalid seconds: ", &sec[0])))),
        Some(s) => s,
    };
    let ms = match parse_field(&sec[1]) {
        None => return Some(Err(FolioError::SubtitleParseError(message_with("Invalid milliseconds: ", &sec[1])))),
        Some(ms) => ms,
    };
    match total_ms(h, m, s, ms) {
        None => None,
        Some(v) => Some(Ok(v)),
    }
}

/// Parses a `HH:MM:SS,mmm` timestamp into milliseconds. Each field is trimmed and read
/// as an `i64`; a malformed timestamp or field is a subtitle parse error naming it.
pub fn parse_timestamp(ts: &str) -> (res: Result<i64, FolioError>)
    requires
        spec_parse_timestamp(ts@) is Some,
    ensures
        outcome_matches(res, spec_parse_timestamp(ts@).unwrap(), |v: i64| v),
{
    let chars = chars_of(ts);
    parse_timestamp_chars(&chars).unwrap()
}

/// Rust's truncating division and remainder of `ms` and its magnitude `a`, by `b`.
proof fn lemma_trunc_by_magnitude(ms: int, a: int, b: int)
    requires
        b > 0,
        a == (if ms < 0 { -ms } else { ms }),
    ensures
        trunc_div(ms, b) == (if ms < 0 { -(a / b) } else { a / b }),
        trunc_rem(ms, b) == (if ms < 0 { -(a % b) } else { a % b }),
{
    assert(a == b * (a / b) + a % b) by (nonlinear_arith)
        requires
            b > 0,
    ;
    assert(b * (-(a / b)) == -(b * (a / b))) by (nonlinear_arith);
}

/// The fields of a timestamp held in characters.
fn timestamp_chars(ms: i64) -> (res: Vec<char>)
    ensures
        res@ == spec_format_timestamp(ms),
{
    let negative = ms < 0;
    let a: u64 = if ms >= 0 {
        ms as u64
    } else if ms == i64::MIN {
        0x8000_0000_0000_0000u64
    } else {
        (-ms) as u64
    };
    let h = a / 3_600_000;
    let m = (a % 3_600_000) / 60_000;
    let s = (a % 60_000) / 1000;
    let r = a % 1000;
    proof {
        let x = ms as int;
        lemma_trunc_by_magnitude(x, a as int, 3_600_000);
        lemma_trunc_by_magnitude(x, a as int, 60_000);
        lemma_trunc_by_magnitude(x, a as int, 1000);
        let hr = trunc_rem(x, 3_600_000);
        lemma_trunc_by_magnitude(hr, (a % 3_600_000) as int, 60_000);
        let mr = trunc_rem(x, 60_000);
        lemma_trunc_by_magnitude(mr, (a % 60_000) as int, 1000);
    }
    let mut out = zero_padded_chars(negative, h, 2);
    out.push(':');
    let mf = zero_padded_chars(negative, m, 2);
    append_chars(&mut out, &mf);
    out.push(':');
    let sf = zero_padded_chars(negative, s, 2);
    append_chars(&mut out, &sf);
    out.push(',');
    let rf = zero_padded_chars(negative, r, 3);
    append_chars(&mut out, &rf);
    out
}

/// Writes `ms` milliseconds as an SRT timestamp `HH:MM:SS,mmm`.
pub fn format_timestamp(ms: i64) -> (res: String)
    ensures
        res@ == spec_format_timestamp(ms),
{
    let chars = timestamp_chars(ms);
    string_from_chars(&chars)
}

// ---------------------------------------------------------------------------
// SRT documents

/// The separator between the two timestamps of a cue: ` --> `.
pub open spec fn arrow() -> Seq<char> {
    seq![' ', '-', '-', '>', ' ']
}

/// `s` with every `\r\n` and then every remaining `\r` turned into `\n`.
pub open spec fn normalize_line_endings(s: Seq<char>) -> Seq<char> {
    replace_all(replace_all(s, seq!['\r', '\n'], seq!['\n']), seq!['\r'], seq!['\n'])
}

/// What one blank-line-separated block of an SRT document gives: `Some(Ok(Some(seg)))`
/// for a cue, `Some(Ok(None))` for a block that is skipped (empty, fewer than three
/// lines, or a second line without exactly one ` --> `), `Some(Err(message))` for a
/// malformed timestamp, and `None` where a timestamp leaves the range of `i64`.
///
/// The block's lines are its pieces between `\n`: a block comes from text whose line
/// endings are normalised, so it holds no `\r`, and it is trimmed, so it does not end
/// with a line ending; there `str::lines` gives exactly these pieces.
pub open spec fn spec_parse_block(block: Seq<char>) -> Option<Result<Option<SegmentView>, Seq<char>>> {
    let b = trim(block);
    if b.len() == 0 {
        Some(Ok(None))
    } else {
        let lines = split_on(b, seq!['\n']);
        if lines.len() < 3 {
            Some(Ok(None))
        } else {
            let parts = split_on(lines[1], arrow());
            if parts.len() != 2 {
                Some(Ok(None))
            } else {
                match spec_parse_timestamp(parts[0]) {
                    None => None,
                    Some(Err(m)) => Some(Err(m)),
                    Some(Ok(start)) => match spec_parse_timestamp(parts[1]) {
                        None => None,
                        Some(Err(m)) => Some(Err(m)),
                        Some(Ok(end)) => Some(Ok(Some(SegmentView {
                            start,
                            end,
                            text: join_with(lines.skip(2), seq!['\n']),
                        }))),
                    },
                }
            }
        }
    }
}

/// A block is read from its trimmed text alone: white space around it, and blank lines
/// in front of it in particular, change nothing.
pub proof fn lemma_block_reads_trimmed(block: Seq<char>)
    ensures
        spec_parse_block(block) == spec_parse_block(trim(block)),
{
    lemma_trim_idempotent(block);
}

/// `first` (where there is one) in front of the segments of `rest`.
pub open spec fn prepend_segments(
    first: Seq<SegmentView>,
    rest: Option<Result<Seq<SegmentView>, Seq<char>>>,
) -> Option<Result<Seq<SegmentView>, Seq<char>>> {
    match rest {
        Some(Ok(r)) => Some(Ok(first + r)),
        other => other,
    }
}

/// The blocks parsed in order; the first error or overflow ends the parse.
pub open spec fn spec_parse_blocks(blocks: Seq<Seq<char>>) -> Option<Result<Seq<SegmentView>, Seq<char>>>
    decreases blocks.len(),
{
    if blocks.len() == 0 {
        Some(Ok(Seq::<SegmentView>::empty()))
    } else {
        match spec_parse_block(blocks[0]) {
            None => None,
            Some(Err(m)) => Some(Err(m)),
            Some(Ok(first)) => prepend_segments(
                match first {
                    Some(seg) => seq![seg],
                    None => Seq::<SegmentView>::empty(),
                },
                spec_parse_blocks(blocks.drop_first()),
            ),
        }
    }
}

/// What parsing an SRT document gives: its line endings normalised, it is cut into
/// blocks at every `\n\n`, and the blocks are parsed in order.
pub open spec fn spec_parse_srt(content: Seq<char>) -> Option<Result<Seq<SegmentView>, Seq<char>>> {
    spec_parse_blocks(split_on(normalize_line_endings(content), seq!['\n', '\n']))
}

/// The SRT cue numbered `number` for `seg`:
/// `{number}\n{start} --> {end}\n{text}\n`.
pub open spec fn srt_entry(number: nat, seg: SegmentView) -> Seq<char> {
    decimal(number) + seq!['\n'] + spec_format_timestamp(seg.start) + arrow()
        + spec_format_timestamp(seg.end) + seq!['\n'] + seg.text + seq!['\n']
}

/// The cues of `segs`, numbered from 1.
pub open spec fn srt_entries(segs: Seq<SegmentView>) -> Seq<Seq<char>> {
    Seq::new(segs.len(), |i: int| srt_entry((i + 1) as nat, segs[i]))
}

/// The SRT document for `segs`: their cues, with a `\n` between neighbours.
pub open spec fn spec_generate_srt(segs: Seq<SegmentView>) -> Seq<char> {
    join_with(srt_entries(segs), seq!['\n'])
}

/// An SRT document is written cue by cue, the cues numbered from 1: no segments give
/// the empty document, and one more segment appends, after a line ending, its cue:
/// the number of segments before it plus one, its two timestamps joined by ` --> `,
/// its text, each on a line of its own.
pub proof fn lemma_generate_srt_push(segs: Seq<SegmentView>, seg: SegmentView)
    ensures
        spec_generate_srt(Seq::<SegmentView>::empty()) == Seq::<char>::empty(),
        ({
            let cue = decimal((segs.len() + 1) as nat) + seq!['\n'] + spec_format_timestamp(seg.start)
                + seq![' ', '-', '-', '>', ' '] + spec_format_timestamp(seg.end) + seq!['\n'] + seg.text
                + seq!['\n'];
            spec_generate_srt(segs.push(seg)) == if segs.len() == 0 {
                cue
            } else {
                spec_generate_srt(segs) + seq!['\n'] + cue
            }
        }),
{
    let all = srt_entries(segs.push(seg));
    assert(all.drop_last() =~= srt_entries(segs));
    assert(all.last() == srt_entry((segs.len() + 1) as nat, seg));
    assert(srt_entries(Seq::<SegmentView>::empty()) =~= Seq::<Seq<char>>::empty());
    if segs.len() == 0 {
        assert(all.len() == 1);
        assert(join_with(all, seq!['\n']) == all[0]);
    } else {
        assert(join_with(all, seq!['\n']) == join_with(all.drop_last(), seq!['\n']) + seq!['\n'] + all.last());
    }
}

/// Parses one block of an SRT document.
fn parse_block(block: &Vec<char>) -> (res: Option<Result<Option<Segment>, FolioError>>)
    ensures
        match spec_parse_block(block@) {
            None => res is None,
            Some(o) => res matches Some(r) && outcome_matches(r, o,
                |x: Option<Segment>| match x { Some(seg) => Some(seg@), None => None }),
        },
{
    let b = trim_chars(block);
    if b.len() == 0 {
        return Some(Ok(None));
    }
    let nl = vec!['\n'];
    assert(nl@ =~= seq!['\n']);
    let lines = split_chars(&b, &nl);
    if lines.len() < 3 {
        return Some(Ok(None));
    }
    let sep = vec![' ', '-', '-', '>', ' '];
    assert(sep@ =~= arrow());
    assert(lines[1]@ == views(lines@)[1]);
    let parts = split_chars(&lines[1], &sep);
    if parts.len() != 2 {
        return Some(Ok(None));
    }
    assert(parts[0]@ == views(parts@)[0]);
    assert(parts[1]@ == views(parts@)[1]);
    let start = match parse_timestamp_chars(&parts[0]) {
        None => return None,
        Some(Err(e)) => return Some(Err(e)),
        Some(Ok(v)) => v,
    };
    let end = match parse_timestamp_chars(&parts[1]) {
        None => return None,
        Some(Err(e)) => return Some(Err(e)),
        Some(Ok(v)) => v,
    };
    let text = join_chars_from(&lines, 2, &nl);
    Some(Ok(Some(Segment { start, end, text: string_from_chars(&text) })))
}

/// Parses an SRT document held as characters; `None` where a timestamp leaves the
/// range of `i64`.
pub fn parse_srt_chars(content: &Vec<char>) -> (res: Option<Result<Vec<Segment>, FolioError>>)
    ensures
        match spec_parse_srt(content@) {
            None => res is None,
            Some(o) => res matches Some(r) && outcome_matches(r, o, |v: Vec<Segment>| segment_views(v@)),
        },
{
    let crlf = vec!['\r', '\n'];
    let cr = vec!['\r'];
    let nl = vec!['\n'];
    let nlnl = vec!['\n', '\n'];
    assert(crlf@ =~= seq!['\r', '\n']);
    assert(cr@ =~= seq!['\r']);
    assert(nl@ =~= seq!['\n']);
    assert(nlnl@ =~= seq!['\n', '\n']);
    let once = replace_chars(content, &crlf, &nl);
    let normalized = replace_chars(&once, &cr, &nl);
    let blocks = split_chars(&normalized, &nlnl);
    let ghost bs = views(blocks@);
    let mut segments: Vec<Segment> = Vec::new();
    let mut i: usize = 0;
    assert(bs.skip(0) =~= bs);
    assert(segment_views(segments@) =~= Seq::<SegmentView>::empty());
    assert(spec_parse_blocks(bs) == prepend_segments(segment_views(segments@), spec_parse_blocks(bs.skip(0))))
        by {
        match spec_parse_blocks(bs) {
            Some(Ok(r)) => { assert(Seq::<SegmentView>::empty() + r =~= r); },
            _ => {},
        }
    }
    while i < blocks.len()
        invariant
            i <= blocks.len(),
            bs == views(blocks@),
            bs == split_on(normalize_line_endings(content@), seq!['\n', '\n']),
            spec_parse_blocks(bs) == prepend_segments(segment_views(segments@), spec_parse_blocks(bs.skip(i as int))),
        decreases blocks.len() - i,
    {
        let ghost rest = bs.skip(i as int);
        assert(rest[0] == blocks[i as int]@);
        assert(rest.drop_first() =~= bs.skip(i + 1));
        let ghost before = segment_views(segments@);
        match parse_block(&blocks[i]) {
            None => {
                return None;
            },
            Some(Err(e)) => {
                return Some(Err(e));
            },
            Some(Ok(None)) => {},
            Some(Ok(Some(seg))) => {
                segments.push(seg);
                proof {
                    assert(segment_views(segments@) =~= before + seq![seg@]);
                    match spec_parse_blocks(bs.skip(i + 1)) {
                        Some(Ok(r)) => {
                            assert(before + (seq![seg@] + r) =~= before + seq![seg@] + r);
                        },
                        _ => {},
                    }
                }
            },
        }
        proof {
            match spec_parse_block(rest[0]) {
                Some(Ok(None)) => {
                    match spec_parse_blocks(bs.skip(i + 1)) {
                        Some(Ok(r)) => {
                            assert(Seq::<SegmentView>::empty() + r =~= r);
                        },
                        _ => {},
                    }
                },
                _ => {},
            }
        }
        i += 1;
    }
    assert(bs.skip(i as int) =~= Seq::<Seq<char>>::empty());
    assert(segment_views(segments@) + Seq::<SegmentView>::empty() =~= segment_views(segments@));
    Some(Ok(segments))
}

/// Parses an SRT document into its cues, in order. The line endings are normalised,
/// the document is cut into blocks at blank lines, and each block whose second line
/// holds two timestamps around ` --> ` gives a segment whose text is the block's
/// remaining lines. Blocks of fewer than three lines or without such a second line are
/// skipped; a malformed timestamp makes the whole parse a subtitle parse error.
/// `None` where a timestamp leaves the range of `i64`.
pub fn parse_srt(content: &str) -> (res: Option<Result<Vec<Segment>, FolioError>>)
    ensures
        match spec_parse_srt(content@) {
            None => res is None,
            Some(o) => res matches Some(r) && outcome_matches(r, o, |v: Vec<Segment>| segment_views(v@)),
        },
{
    let chars = chars_of(content);
    parse_srt_chars(&chars)
}

// ---------------------------------------------------------------------------
// Decoding subtitle files

/// The legacy encodings that a subtitle file that is not UTF-8 is tried in.
#[derive(Debug, Clone, Copy, PartialEq, Eq)]
pub enum SubtitleEncoding {
    /// Western European.
    Windows1252,
    /// Latin-2.
    Iso8859_2,
    /// Windows UTF-16.
    Utf16Le,
    /// UTF-16 big endian.
    Utf16Be,
    /// Cyrillic.
    Windows1251,
    /// Japanese.
    ShiftJis,
    /// Chinese.
    Gbk,
}

/// The order in which the legacy encodings are tried.
pub open spec fn encoding_order() -> Seq<SubtitleEncoding> {
    seq![
        SubtitleEncoding::Windows1252,
        SubtitleEncoding::Iso8859_2,
        SubtitleEncoding::Utf16Le,
        SubtitleEncoding::Utf16Be,
        SubtitleEncoding::Windows1251,
        SubtitleEncoding::ShiftJis,
        SubtitleEncoding::Gbk,
    ]
}

/// What `encoding_rs::Encoding::decode` gives for `bytes` in `encoding`: the decoded
/// text, and whether malformed sequences had to be replaced.
pub uninterp spec fn encoding_decode(encoding: SubtitleEncoding, bytes: Seq<u8>) -> (Seq<char>, bool);

/// Decodes `bytes` with `encoding_rs`'s `Encoding::decode` for the encoding (which sniffs
/// a byte order mark first). Trusted to return the text and the had-errors flag that
/// `encoding_decode` names; nothing is stated of what they are. The length bound keeps
/// the capacity that `decode` computes for its output from overflowing, where it panics.
#[verifier::external_body]
fn decode_with(encoding: SubtitleEncoding, bytes: &[u8]) -> (res: (String, bool))
    requires
        bytes@.len() * 3 + 16 <= isize::MAX,
    ensures
        (res.0@, res.1) == encoding_decode(encoding, bytes@),
{
    let table: &'static encoding_rs::Encoding = match encoding {
        SubtitleEncoding::Windows1252 => encoding_rs::WINDOWS_1252,
        SubtitleEncoding::Iso8859_2 => encoding_rs::ISO_8859_2,
        SubtitleEncoding::Utf16Le => encoding_rs::UTF_16LE,
        SubtitleEncoding::Utf16Be => encoding_rs::UTF_16BE,
        SubtitleEncoding::Windows1251 => encoding_rs::WINDOWS_1251,
        SubtitleEncoding::ShiftJis => encoding_rs::SHIFT_JIS,
        SubtitleEncoding::Gbk => encoding_rs::GBK,
    };
    let (text, _used, had_errors) = table.decode(bytes);
    (text.into_owned(), had_errors)
}

/// `std::str::from_utf8`, owned: trusted to succeed exactly on valid UTF-8 (as vstd
/// defines it) and then to give the characters that the bytes encode.
#[verifier::external_body]
fn utf8_text(bytes: &[u8]) -> (res: Option<String>)
    ensures
        res is Some <==> vstd::utf8::valid_utf8(bytes@),
        res matches Some(s) ==> s@ == vstd::utf8::decode_utf8(bytes@),
{
    match std::str::from_utf8(bytes) {
        Ok(s) => Some(s.to_owned()),
        Err(_) => None,
    }
}

/// The text of the first encoding in `encodings` that decodes `bytes` without errors.
pub open spec fn first_clean_decoding(bytes: Seq<u8>, encodings: Seq<SubtitleEncoding>) -> Option<Seq<char>>
    decreases encodings.len(),
{
    if encodings.len() == 0 {
        None
    } else if !encoding_decode(encodings[0], bytes).1 {
        Some(encoding_decode(encodings[0], bytes).0)
    } else {
        first_clean_decoding(bytes, encodings.drop_first())
    }
}

/// The text of a subtitle file: the bytes as UTF-8 where they are valid UTF-8, else
/// as the first legacy encoding that decodes them without errors; `None` if none does.
pub open spec fn spec_decode_subtitles(bytes: Seq<u8>) -> Option<Seq<char>> {
    if vstd::utf8::valid_utf8(bytes) {
        Some(vstd::utf8::decode_utf8(bytes))
    } else {
        first_clean_decoding(bytes, encoding_order())
    }
}

/// How subtitle bytes are decoded: as UTF-8 where they are valid UTF-8; otherwise the
/// legacy encodings are tried in this order, and the first one that decodes the bytes
/// without errors gives the text: windows-1252 (Western European), ISO-8859-2,
/// UTF-16LE, UTF-16BE, windows-1251, Shift_JIS, GBK. Where all of them report errors,
/// there is no text.
pub proof fn lemma_decoding_order(b: Seq<u8>)
    ensures
        vstd::utf8::valid_utf8(b) ==> spec_decode_subtitles(b) == Some(vstd::utf8::decode_utf8(b)),
        !vstd::utf8::valid_utf8(b) && !encoding_decode(SubtitleEncoding::Windows1252, b).1
            ==> spec_decode_subtitles(b) == Some(encoding_decode(SubtitleEncoding::Windows1252, b).0),
        !vstd::utf8::valid_utf8(b) && encoding_decode(SubtitleEncoding::Windows1252, b).1
            && !encoding_decode(SubtitleEncoding::Iso8859_2, b).1
            ==> spec_decode_subtitles(b) == Some(encoding_decode(SubtitleEncoding::Iso8859_2, b).0),
        !vstd::utf8::valid_utf8(b) && encoding_decode(SubtitleEncoding::Windows1252, b).1
            && encoding_decode(SubtitleEncoding::Iso8859_2, b).1
            && !encoding_decode(SubtitleEncoding::Utf16Le, b).1
            ==> spec_decode_subtitles(b) == Some(encoding_decode(SubtitleEncoding::Utf16Le, b).0),
        !vstd::utf8::valid_utf8(b) && encoding_decode(SubtitleEncoding::Windows1252, b).1
            && encoding_decode(SubtitleEncoding::Iso8859_2, b).1
            && encoding_decode(SubtitleEncoding::Utf16Le, b).1
            && !encoding_decode(SubtitleEncoding::Utf16Be, b).1
            ==> spec_decode_subtitles(b) == Some(encoding_decode(SubtitleEncoding::Utf16Be, b).0),
        !vstd::utf8::valid_utf8(b) && encoding_decode(SubtitleEncoding::Windows1252, b).1
            && encoding_decode(SubtitleEncoding::Iso8859_2, b).1
            && encoding_decode(SubtitleEncoding::Utf16Le, b).1
            && encoding_decode(SubtitleEncoding::Utf16Be, b).1
            && !encoding_decode(SubtitleEncoding::Windows1251, b).1
            ==> spec_decode_subtitles(b) == Some(encoding_decode(SubtitleEncoding::Windows1251, b).0),
        !vstd::utf8::valid_utf8(b) && encoding_decode(SubtitleEncoding::Windows1252, b).1
            && encoding_decode(SubtitleEncoding::Iso8859_2, b).1
            && encoding_decode(SubtitleEncoding::Utf16Le, b).1
            && encoding_decode(SubtitleEncoding::Utf16Be, b).1
            && encoding_decode(SubtitleEncoding::Windows1251, b).1
            && !encoding_decode(SubtitleEncoding::ShiftJis, b).1
            ==> spec_decode_subtitles(b) == Some(encoding_decode(SubtitleEncoding::ShiftJis, b).0),
        !vstd::utf8::valid_utf8(b) && encoding_decode(SubtitleEncoding::Windows1252, b).1
            && encoding_decode(SubtitleEncoding::Iso8859_2, b).1
            && encoding_decode(SubtitleEncoding::Utf16Le, b).1
            && encoding_decode(SubtitleEncoding::Utf16Be, b).1
            && encoding_decode(SubtitleEncoding::Windows1251, b).1
            && encoding_decode(SubtitleEncoding::ShiftJis, b).1
            && !encoding_decode(SubtitleEncoding::Gbk, b).1
            ==> spec_decode_subtitles(b) == Some(encoding_decode(SubtitleEncoding::Gbk, b).0),
        !vstd::utf8::valid_utf8(b) && encoding_decode(SubtitleEncoding::Windows1252, b).1
            && encoding_decode(SubtitleEncoding::Iso8859_2, b).1
            && encoding_decode(SubtitleEncoding::Utf16Le, b).1
            && encoding_decode(SubtitleEncoding::Utf16Be, b).1
            && encoding_decode(SubtitleEncoding::Windows1251, b).1
            && encoding_decode(SubtitleEncoding::ShiftJis, b).1
            && encoding_decode(SubtitleEncoding::Gbk, b).1
            ==> spec_decode_subtitles(b) is None,
{
    reveal_with_fuel(first_clean_decoding, 8);
    let e = encoding_order();
    assert(e.drop_first()[0] == SubtitleEncoding::Iso8859_2);
    assert(e.drop_first().drop_first()[0] == SubtitleEncoding::Utf16Le);
    assert(e.drop_first().drop_first().drop_first()[0] == SubtitleEncoding::Utf16Be);
    assert(e.drop_first().drop_first().drop_first().drop_first()[0] == SubtitleEncoding::Windows1251);
    assert(e.drop_first().drop_first().drop_first().drop_first().drop_first()[0] == SubtitleEncoding::ShiftJis);
    assert(e.drop_first().drop_first().drop_first().drop_first().drop_first().drop_first()[0] == SubtitleEncoding::Gbk);
    assert(e.drop_first().drop_first().drop_first().drop_first().drop_first().drop_first().drop_first().len() == 0);
}

/// Decodes the bytes of a subtitle file: UTF-8 where they are valid UTF-8, else the
/// first of the legacy encodings that decodes them without errors. When none does, a
/// subtitle parse error that names the file by `path_display`.
pub fn decode_subtitles(bytes: &[u8], path_display: &str) -> (res: Result<String, FolioError>)
    requires
        !vstd::utf8::valid_utf8(bytes@) ==> bytes@.len() * 3 + 16 <= isize::MAX,
    ensures
        match spec_decode_subtitles(bytes@) {
            Some(t) => res matches Ok(s) && s@ == t,
            None => res matches Err(e) && is_subtitle_error(e,
                "Could not decode subtitle file with any known encoding: "@ + path_display@),
        },
{
    if let Some(text) = utf8_text(bytes) {
        return Ok(text);
    }
    let encodings = vec![
        SubtitleEncoding::Windows1252,
        SubtitleEncoding::Iso8859_2,
        SubtitleEncoding::Utf16Le,
        SubtitleEncoding::Utf16Be,
        SubtitleEncoding::Windows1251,
        SubtitleEncoding::ShiftJis,
        SubtitleEncoding::Gbk,
    ];
    assert(encodings@ =~= encoding_order());
    let mut i: usize = 0;
    assert(encodings@.skip(0) =~= encodings@);
    while i < encodings.len()
        invariant
            i <= encodings.len(),
            bytes@.len() * 3 + 16 <= isize::MAX,
            !vstd::utf8::valid_utf8(bytes@),
            encodings@ == encoding_order(),
            spec_decode_subtitles(bytes@) == first_clean_decoding(bytes@, encodings@.skip(i as int)),
        decreases encodings.len() - i,
    {
        let ghost rest = encodings@.skip(i as int);
        assert(rest[0] == encodings@[i as int]);
        assert(rest.drop_first() =~= encodings@.skip(i + 1));
        let (text, had_errors) = decode_with(encodings[i], bytes);
        if !had_errors {
            return Ok(text);
        }
        i += 1;
    }
    let mut msg = String::from_str("Could not decode subtitle file with any known encoding: ");
    msg.append(path_display);
    Err(FolioError::SubtitleParseError(msg))
}

/// Reads the subtitles of a file from its bytes: decodes them as
/// [`decode_subtitles`] does and parses the text as [`parse_srt`] does. `None` where a
/// timestamp leaves the range of `i64`.
pub fn parse_srt_bytes(bytes: &[u8], path_display: &str) -> (res: Option<Result<Vec<Segment>, FolioError>>)
    requires
        !vstd::utf8::valid_utf8(bytes@) ==> bytes@.len() * 3 + 16 <= isize::MAX,
    ensures
        match spec_decode_subtitles(bytes@) {
            None => res matches Some(Err(e)) && is_subtitle_error(e,
                "Could not decode subtitle file with any known encoding: "@ + path_display@),
            Some(t) => match spec_parse_srt(t) {
                None => res is None,
                Some(o) => res matches Some(r) && outcome_matches(r, o, |v: Vec<Segment>| segment_views(v@)),
            },
        },
{
    match decode_subtitles(bytes, path_display) {
        Err(e) => Some(Err(e)),
        Ok(text) => parse_srt(text.as_str()),
    }
}

/// The SRT cue numbered `number` for `seg`.
fn entry_chars(number: u64, seg: &Segment) -> (res: Vec<char>)
    ensures
        res@ == srt_entry(number as nat, seg@),
{
    let mut out = decimal_chars(number);
    out.push('\n');
    let start = timestamp_chars(seg.start);
    append_chars(&mut out, &start);
    let sep = vec![' ', '-', '-', '>', ' '];
    append_chars(&mut out, &sep);
    let end = timestamp_chars(seg.end);
    append_chars(&mut out, &end);
    out.push('\n');
    let text = chars_of(seg.text.as_str());
    append_chars(&mut out, &text);
    out.push('\n');
    assert(sep@ =~= arrow());
    assert(out@ =~= srt_entry(number as nat, seg@));
    out
}

/// Writes `segments` as an SRT document: a cue per segment, numbered from 1, each
/// `{number}\n{start} --> {end}\n{text}\n`, with a `\n` between neighbours.
pub fn generate_srt(segments: &[Segment]) -> (res: String)
    ensures
        res@ == spec_generate_srt(segment_views(segments@)),
{
    let ghost entries = srt_entries(segment_views(segments@));
    let mut out: Vec<char> = Vec::new();
    let mut i: usize = 0;
    assert(entries.take(0) =~= Seq::<Seq<char>>::empty());
    while i < segments.len()
        invariant
            i <= segments.len(),
            entries == srt_entries(segment_views(segments@)),
            out@ == join_with(entries.take(i as int), seq!['\n']),
        decreases segments.len() - i,
    {
        let ghost prev = entries.take(i as int);
        if i > 0 {
            out.push('\n');
        }
        let entry = entry_chars((i + 1) as u64, &segments[i]);
        append_chars(&mut out, &entry);
        i += 1;
        proof {
            let now = entries.take(i as int);
            assert(now.drop_last() =~= prev);
            assert(now.last() == entry@);
            if i == 1 {
                assert(out@ =~= now[0]);
            } else {
                assert(out@ =~= join_with(prev, seq!['\n']) + seq!['\n'] + entry@);
            }
        }
    }
    assert(entries.take(i as int) =~= entries);
    string_from_chars(&out)
}

// ---------------------------------------------------------------------------
// Laws

/// A magnitude split into hours, minutes, seconds and milliseconds adds up again.
proof fn lemma_time_fields(a: int)
    requires
        a >= 0,
    ensures
        a == 3_600_000 * (a / 3_600_000) + 60_000 * ((a % 3_600_000) / 60_000)
            + 1000 * ((a % 60_000) / 1000) + a % 1000,
        0 <= (a % 3_600_000) / 60_000 < 60,
        0 <= (a % 60_000) / 1000 < 60,
        0 <= a % 1000 < 1000,
        0 <= a / 3_600_000 <= a,
{
    let q1 = a / 3_600_000;
    let r1 = a % 3_600_000;
    vstd::arithmetic::div_mod::lemma_fundamental_div_mod(a, 3_600_000);
    let q2 = r1 / 60_000;
    let r2 = r1 % 60_000;
    vstd::arithmetic::div_mod::lemma_fundamental_div_mod(r1, 60_000);
    vstd::arithmetic::div_mod::lemma_fundamental_div_mod_converse(a, 60_000, 60 * q1 + q2, r2);
    let q3 = r2 / 1000;
    let r3 = r2 % 1000;
    vstd::arithmetic::div_mod::lemma_fundamental_div_mod(r2, 1000);
    vstd::arithmetic::div_mod::lemma_fundamental_div_mod_converse(a, 1000, 60 * (60 * q1 + q2) + q3, r3);
}

/// A text made of numeral characters and `c` splits at `c` only.
proof fn lemma_no_occurrence_before(s: Seq<char>, c: char, k: int)
    requires
        0 <= k <= s.len(),
        forall|i: int| 0 <= i < k ==> #[trigger] s[i] != c,
    ensures
        forall|p: int| 0 <= p < k ==> !occurs_at(s, seq![c], p),
{
    assert forall|p: int| 0 <= p < k implies !occurs_at(s, seq![c], p) by {
        if occurs_at(s, seq![c], p) {
            lemma_occurs_single(s, c, p);
        }
    }
}

/// Non-empty text made of digits and minus signs.
pub open spec fn is_numeral(s: Seq<char>) -> bool {
    s.len() >= 1 && forall|i: int| 0 <= i < s.len() ==> is_numeral_char(#[trigger] s[i])
}

/// Four numerals laid out as `a:b:c,d` split back into the four.
#[verifier::spinoff_prover]
#[verifier::rlimit(40)]
proof fn lemma_timestamp_layout(pa: Seq<char>, pb: Seq<char>, pc: Seq<char>, pd: Seq<char>)
    requires
        is_numeral(pa),
        is_numeral(pb),
        is_numeral(pc),
        is_numeral(pd),
    ensures
        split_on(pa + seq![':'] + pb + seq![':'] + pc + seq![','] + pd, seq![':'])
            == seq![pa, pb, pc + seq![','] + pd],
        split_on(pc + seq![','] + pd, seq![',']) == seq![pc, pd],
        trim(pa) == pa,
        trim(pb) == pb,
        trim(pc) == pc,
        trim(pd) == pd,
{
    let colon = seq![':'];
    let comma = seq![','];
    let tail2 = pc + comma + pd;
    let tail1 = pb + colon + tail2;
    let f = pa + colon + pb + colon + pc + comma + pd;
    assert(f =~= pa + colon + tail1);
    assert forall|i: int| 0 <= i < pa.len() implies #[trigger] (pa + colon + tail1)[i] != ':' by {
        assert((pa + colon + tail1)[i] == pa[i]);
        assert(is_numeral_char(pa[i]));
    }
    lemma_no_occurrence_before(pa + colon + tail1, ':', pa.len() as int);
    lemma_split_first(pa, colon, tail1);
    assert forall|i: int| 0 <= i < pb.len() implies #[trigger] (pb + colon + tail2)[i] != ':' by {
        assert((pb + colon + tail2)[i] == pb[i]);
        assert(is_numeral_char(pb[i]));
    }
    lemma_no_occurrence_before(pb + colon + tail2, ':', pb.len() as int);
    lemma_split_first(pb, colon, tail2);
    assert forall|i: int| 0 <= i < tail2.len() implies #[trigger] tail2[i] != ':' by {
        if i < pc.len() {
            assert(tail2[i] == pc[i]);
            assert(is_numeral_char(pc[i]));
        } else if i > pc.len() {
            assert(tail2[i] == pd[i - pc.len() - 1]);
            assert(is_numeral_char(pd[i - pc.len() - 1]));
        }
    }
    lemma_no_occurrence_before(tail2, ':', tail2.len() as int);
    lemma_split_absent(tail2, colon);
    assert(split_on(f, colon) =~= seq![pa, pb, tail2]);

    assert forall|i: int| 0 <= i < pc.len() implies #[trigger] (pc + comma + pd)[i] != ',' by {
        assert((pc + comma + pd)[i] == pc[i]);
        assert(is_numeral_char(pc[i]));
    }
    lemma_no_occurrence_before(pc + comma + pd, ',', pc.len() as int);
    lemma_split_first(pc, comma, pd);
    assert forall|i: int| 0 <= i < pd.len() implies #[trigger] pd[i] != ',' by {
        assert(is_numeral_char(pd[i]));
    }
    lemma_no_occurrence_before(pd, ',', pd.len() as int);
    lemma_split_absent(pd, comma);
    assert(split_on(tail2, comma) =~= seq![pc, pd]);

    assert(is_numeral_char(pa[0]) && is_numeral_char(pa.last()));
    assert(is_numeral_char(pb[0]) && is_numeral_char(pb.last()));
    assert(is_numeral_char(pc[0]) && is_numeral_char(pc.last()));
    assert(is_numeral_char(pd[0]) && is_numeral_char(pd.last()));
    lemma_trim_unchanged(pa);
    lemma_trim_unchanged(pb);
    lemma_trim_unchanged(pc);
    lemma_trim_unchanged(pd);
}

/// The fields that a timestamp is written with add up to it again in `i64` arithmetic.
proof fn lemma_timestamp_fields_total(ms: i64)
    ensures
        fits_i64(trunc_div(ms as int, 3_600_000)),
        fits_i64(trunc_div(trunc_rem(ms as int, 3_600_000), 60_000)),
        fits_i64(trunc_div(trunc_rem(ms as int, 60_000), 1000)),
        fits_i64(trunc_rem(ms as int, 1000)),
        timestamp_total(
            trunc_div(ms as int, 3_600_000) as i64,
            trunc_div(trunc_rem(ms as int, 3_600_000), 60_000) as i64,
            trunc_div(trunc_rem(ms as int, 60_000), 1000) as i64,
            trunc_rem(ms as int, 1000) as i64,
        ) == Some(ms),
{
    let x = ms as int;
    let a: int = if x < 0 { -x } else { x };
    lemma_trunc_by_magnitude(x, a, 3_600_000);
    lemma_trunc_by_magnitude(x, a, 60_000);
    lemma_trunc_by_magnitude(x, a, 1000);
    lemma_trunc_by_magnitude(trunc_rem(x, 3_600_000), a % 3_600_000, 60_000);
    lemma_trunc_by_magnitude(trunc_rem(x, 60_000), a % 60_000, 1000);
    lemma_time_fields(a);
}

/// A timestamp that was written reads back as the same number of milliseconds.
#[verifier::spinoff_prover]
#[verifier::rlimit(40)]
pub proof fn lemma_timestamp_round_trip(ms: i64)
    ensures
        spec_parse_timestamp(spec_format_timestamp(ms)) == Some(Ok::<i64, Seq<char>>(ms)),
{
    let x = ms as int;
    let hv = trunc_div(x, 3_600_000);
    let mv = trunc_div(trunc_rem(x, 3_600_000), 60_000);
    let sv = trunc_div(trunc_rem(x, 60_000), 1000);
    let rv = trunc_rem(x, 1000);
    lemma_timestamp_fields_total(ms);
    lemma_zero_padded_chars(hv, 2);
    lemma_zero_padded_chars(mv, 2);
    lemma_zero_padded_chars(sv, 2);
    lemma_zero_padded_chars(rv, 3);
    let pa = zero_padded(hv, 2);
    let pb = zero_padded(mv, 2);
    let pc = zero_padded(sv, 2);
    let pd = zero_padded(rv, 3);
    lemma_timestamp_layout(pa, pb, pc, pd);
    lemma_parse_zero_padded(hv, 2);
    lemma_parse_zero_padded(mv, 2);
    lemma_parse_zero_padded(sv, 2);
    lemma_parse_zero_padded(rv, 3);
}

/// `x` comes no later than `y` in lexicographic order of characters: `x` is a prefix
/// of `y`, or at the first position where they differ `x` has the smaller character.
pub open spec fn lex_le(x: Seq<char>, y: Seq<char>) -> bool {
    ||| x.len() <= y.len() && y.take(x.len() as int) == x
    ||| exists|k: int| 0 <= k < x.len() && k < y.len() && x.take(k) == y.take(k) && x[k] < y[k]
}

/// `s` has the shape `HH:MM:SS,mmm`: twelve characters, ASCII digits but for the
/// separators, with minutes and seconds below 60.
pub open spec fn is_timestamp_shape(s: Seq<char>) -> bool {
    &&& s.len() == 12
    &&& s[2] == ':' && s[5] == ':' && s[8] == ','
    &&& forall|i: int| 0 <= i < 12 && i != 2 && i != 5 && i != 8 ==> is_digit(#[trigger] s[i])
    &&& s[3] < '6' && s[6] < '6'
}

/// A value below 100 written with two digits.
proof fn lemma_two_digits(v: int)
    requires
        0 <= v < 100,
    ensures
        zero_padded(v, 2) == seq![digit_char(v / 10), digit_char(v % 10)],
{
    reveal_with_fuel(decimal, 3);
    if v < 10 {
        assert(zeros(1) =~= seq!['0']);
        assert(zero_padded(v, 2) =~= seq![digit_char(v / 10), digit_char(v % 10)]);
    } else {
        assert(zeros(0) =~= Seq::<char>::empty());
        assert(decimal((v / 10) as nat) == seq![digit_char(v / 10)]);
        assert(zero_padded(v, 2) =~= seq![digit_char(v / 10), digit_char(v % 10)]);
    }
}

/// A value below 1000 written with three digits.
proof fn lemma_three_digits(v: int)
    requires
        0 <= v < 1000,
    ensures
        zero_padded(v, 3) == seq![digit_char(v / 100), digit_char((v / 10) % 10), digit_char(v % 10)],
{
    reveal_with_fuel(decimal, 4);
    let r = seq![digit_char(v / 100), digit_char((v / 10) % 10), digit_char(v % 10)];
    if v < 10 {
        assert(zeros(2) =~= seq!['0', '0']);
        assert(zero_padded(v, 3) =~= r);
    } else if v < 100 {
        assert(zeros(1) =~= seq!['0']);
        assert(decimal((v / 10) as nat) == seq![digit_char(v / 10)]);
        assert(zero_padded(v, 3) =~= r);
    } else {
        assert(zeros(0) =~= Seq::<char>::empty());
        assert(decimal((v / 100) as nat) == seq![digit_char(v / 100)]);
        assert(decimal((v / 10) as nat) == decimal((v / 100) as nat) + seq![digit_char((v / 10) % 10)]);
        assert(zero_padded(v, 3) =~= r);
    }
}

/// The digit character of a digit orders as the digit does.
proof fn lemma_digit_char_order(d: int, e: int)
    requires
        0 <= d < 10,
        0 <= e < 10,
    ensures
        is_digit(digit_char(d)),
        d < e ==> digit_char(d) < digit_char(e),
        d == e <==> digit_char(d) == digit_char(e),
        d < 6 ==> digit_char(d) < '6',
{
}

/// The nine digits of a written timestamp below 100 hours, most significant first.
pub open spec fn timestamp_digits(ms: int) -> Seq<int> {
    let h = ms / 3_600_000;
    let m = (ms % 3_600_000) / 60_000;
    let s = (ms % 60_000) / 1000;
    let x = ms % 1000;
    seq![h / 10, h % 10, m / 10, m % 10, s / 10, s % 10, x / 100, (x / 10) % 10, x % 10]
}

/// Where the timestamp's digit `j` stands in its text.
pub open spec fn digit_position(j: int) -> int {
    if j < 2 { j } else if j < 4 { j + 1 } else if j < 6 { j + 2 } else { j + 3 }
}

/// A written timestamp below 100 hours: its digits at their positions, and the
/// separators between them.
proof fn lemma_timestamp_text(ms: int)
    requires
        0 <= ms < 360_000_000,
    ensures
        spec_format_timestamp(ms as i64).len() == 12,
        spec_format_timestamp(ms as i64)[2] == ':',
        spec_format_timestamp(ms as i64)[5] == ':',
        spec_format_timestamp(ms as i64)[8] == ',',
        forall|j: int| 0 <= j < 9 ==> spec_format_timestamp(ms as i64)[#[trigger] digit_position(j)]
            == digit_char(timestamp_digits(ms)[j]),
        forall|j: int| 0 <= j < 9 ==> 0 <= #[trigger] timestamp_digits(ms)[j] < 10,
        timestamp_digits(ms)[2] < 6,
        timestamp_digits(ms)[4] < 6,
{
    let h = ms / 3_600_000;
    let m = (ms % 3_600_000) / 60_000;
    let s = (ms % 60_000) / 1000;
    let x = ms % 1000;
    assert(trunc_div(ms, 3_600_000) == h);
    assert(trunc_rem(ms, 3_600_000) == ms % 3_600_000);
    assert(trunc_div(trunc_rem(ms, 3_600_000), 60_000) == m);
    assert(trunc_rem(ms, 60_000) == ms % 60_000);
    assert(trunc_div(trunc_rem(ms, 60_000), 1000) == s);
    assert(trunc_rem(ms, 1000) == x);
    assert(m < 60);
    assert(s < 60);
    lemma_two_digits(h);
    lemma_two_digits(m);
    lemma_two_digits(s);
    lemma_three_digits(x);
    let t = spec_format_timestamp(ms as i64);
    assert(t =~= seq![
        digit_char(h / 10), digit_char(h % 10), ':', digit_char(m / 10), digit_char(m % 10), ':',
        digit_char(s / 10), digit_char(s % 10), ',', digit_char(x / 100), digit_char((x / 10) % 10),
        digit_char(x % 10),
    ]);
}

/// The value of a timestamp below 100 hours from its digits.
proof fn lemma_timestamp_digits_value(ms: int)
    requires
        0 <= ms < 360_000_000,
    ensures
        ({
            let d = timestamp_digits(ms);
            ms == d[0] * 36_000_000 + d[1] * 3_600_000 + d[2] * 600_000 + d[3] * 60_000 + d[4] * 10_000
                + d[5] * 1000 + d[6] * 100 + d[7] * 10 + d[8]
        }),
{
    let h = ms / 3_600_000;
    let r1 = ms % 3_600_000;
    let m = r1 / 60_000;
    let r2 = r1 % 60_000;
    let s = r2 / 1000;
    let x = r2 % 1000;
    vstd::arithmetic::div_mod::lemma_fundamental_div_mod(ms, 3_600_000);
    vstd::arithmetic::div_mod::lemma_fundamental_div_mod(r1, 60_000);
    vstd::arithmetic::div_mod::lemma_fundamental_div_mod(r2, 1000);
    assert(0 <= r1 < 3_600_000);
    assert(0 <= r2 < 60_000);
    assert(0 <= x < 1000);
    vstd::arithmetic::div_mod::lemma_fundamental_div_mod_converse(ms, 60_000, 60 * h + m, r2);
    vstd::arithmetic::div_mod::lemma_fundamental_div_mod_converse(ms, 1000, 3600 * h + 60 * m + s, x);
    vstd::arithmetic::div_mod::lemma_fundamental_div_mod(h, 10);
    vstd::arithmetic::div_mod::lemma_fundamental_div_mod(m, 10);
    vstd::arithmetic::div_mod::lemma_fundamental_div_mod(s, 10);
    vstd::arithmetic::div_mod::lemma_fundamental_div_mod(x, 10);
    vstd::arithmetic::div_mod::lemma_fundamental_div_mod(x, 100);
    let x1 = x / 10;
    vstd::arithmetic::div_mod::lemma_fundamental_div_mod(x1, 10);
    vstd::arithmetic::div_mod::lemma_fundamental_div_mod_converse(x, 100, x1 / 10, (x1 % 10) * 10 + x % 10);
    let d = timestamp_digits(ms);
    assert(d[0] == h / 10 && d[1] == h % 10 && d[2] == m / 10 && d[3] == m % 10);
    assert(d[4] == s / 10 && d[5] == s % 10 && d[6] == x / 100 && d[7] == x1 % 10 && d[8] == x % 10);
}

/// Written timestamps below 100 hours have the shape `HH:MM:SS,mmm`, and they sort as
/// the times do: the text of an earlier time comes no later in lexicographic order.
pub proof fn lemma_timestamp_shape_and_order(a: i64, b: i64)
    requires
        0 <= a <= b < 360_000_000,
    ensures
        is_timestamp_shape(spec_format_timestamp(a)),
        is_timestamp_shape(spec_format_timestamp(b)),
        lex_le(spec_format_timestamp(a), spec_format_timestamp(b)),
{
    let ta = spec_format_timestamp(a);
    let tb = spec_format_timestamp(b);
    let da = timestamp_digits(a as int);
    let db = timestamp_digits(b as int);
    lemma_timestamp_text(a as int);
    lemma_timestamp_text(b as int);
    lemma_timestamp_digits_value(a as int);
    lemma_timestamp_digits_value(b as int);
    assert forall|i: int| 0 <= i < 12 && i != 2 && i != 5 && i != 8 implies is_digit(#[trigger] ta[i]) by {
        let j = if i < 2 { i } else if i < 5 { i - 1 } else if i < 8 { i - 2 } else { i - 3 };
        assert(digit_position(j) == i);
        lemma_digit_char_order(da[j], db[j]);
    }
    assert forall|i: int| 0 <= i < 12 && i != 2 && i != 5 && i != 8 implies is_digit(#[trigger] tb[i]) by {
        let j = if i < 2 { i } else if i < 5 { i - 1 } else if i < 8 { i - 2 } else { i - 3 };
        assert(digit_position(j) == i);
        lemma_digit_char_order(da[j], db[j]);
    }
    lemma_digit_char_order(da[2], 6);
    lemma_digit_char_order(da[4], 6);
    lemma_digit_char_order(db[2], 6);
    lemma_digit_char_order(db[4], 6);
    assert(ta[digit_position(2)] == digit_char(da[2]));
    assert(ta[digit_position(4)] == digit_char(da[4]));
    assert(tb[digit_position(2)] == digit_char(db[2]));
    assert(tb[digit_position(4)] == digit_char(db[4]));
    assert(is_timestamp_shape(ta));
    assert(is_timestamp_shape(tb));
    if da == db {
        assert forall|j: int| 0 <= j < 9 implies ta[#[trigger] digit_position(j)] == tb[digit_position(j)] by {}
        assert forall|i: int| 0 <= i < 12 implies ta[i] == tb[i] by {
            if i != 2 && i != 5 && i != 8 {
                let j = if i < 2 { i } else if i < 5 { i - 1 } else if i < 8 { i - 2 } else { i - 3 };
                assert(digit_position(j) == i);
            }
        }
        assert(tb.take(12) =~= ta);
    } else {
        let j = lemma_first_smaller_digit(da, db);
        let k = digit_position(j);
        assert forall|i: int| 0 <= i < k implies ta[i] == tb[i] by {
            if i != 2 && i != 5 && i != 8 {
                let jj = if i < 2 { i } else if i < 5 { i - 1 } else if i < 8 { i - 2 } else { i - 3 };
                assert(digit_position(jj) == i);
                assert(da[jj] == db[jj]);
            }
        }
        assert(ta.take(k) =~= tb.take(k));
        lemma_digit_char_order(da[j], db[j]);
        assert(ta[k] < tb[k]);
    }
}

/// Of two different digit strings in the timestamps' mixed radix, the smaller value has
/// the smaller digit at the first place where they differ.
proof fn lemma_first_smaller_digit(da: Seq<int>, db: Seq<int>) -> (j: int)
    requires
        da.len() == 9 && db.len() == 9,
        da != db,
        forall|i: int| 0 <= i < 9 ==> 0 <= #[trigger] da[i] < 10 && 0 <= db[i] < 10,
        da[2] < 6 && da[4] < 6 && db[2] < 6 && db[4] < 6,
        da[0] * 36_000_000 + da[1] * 3_600_000 + da[2] * 600_000 + da[3] * 60_000 + da[4] * 10_000
            + da[5] * 1000 + da[6] * 100 + da[7] * 10 + da[8]
            <= db[0] * 36_000_000 + db[1] * 3_600_000 + db[2] * 600_000 + db[3] * 60_000 + db[4] * 10_000
            + db[5] * 1000 + db[6] * 100 + db[7] * 10 + db[8],
    ensures
        0 <= j < 9,
        da[j] < db[j],
        forall|i: int| 0 <= i < j ==> da[i] == db[i],
{
    assert(0 <= da[8] < 10 && 0 <= db[8] < 10);
    assert(0 <= da[7] < 10 && 0 <= db[7] < 10);
    assert(0 <= da[6] < 10 && 0 <= db[6] < 10);
    assert(0 <= da[5] < 10 && 0 <= db[5] < 10);
    assert(0 <= da[3] < 10 && 0 <= db[3] < 10);
    assert(0 <= da[1] < 10 && 0 <= db[1] < 10);
    assert(0 <= da[0] < 10 && 0 <= db[0] < 10);
    if da[0] != db[0] {
        0
    } else if da[1] != db[1] {
        1
    } else if da[2] != db[2] {
        2
    } else if da[3] != db[3] {
        3
    } else if da[4] != db[4] {
        4
    } else if da[5] != db[5] {
        5
    } else if da[6] != db[6] {
        6
    } else if da[7] != db[7] {
        7
    } else {
        assert(da[8] != db[8]) by {
            if da[8] == db[8] {
                assert(da =~= db);
            }
        }
        8
    }
}

/// Text that an SRT document carries through unchanged as a cue's text: not empty,
/// without `\r`, without a blank line, not starting with a line ending and not ending
/// with white space.
pub open spec fn is_cue_text(t: Seq<char>) -> bool {
    &&& t.len() > 0
    &&& t[0] != '\n'
    &&& !is_white_space(t.last())
    &&& forall|i: int| 0 <= i < t.len() ==> #[trigger] t[i] != '\r'
    &&& no_blank_line(t)
}

/// No two line endings in `s` stand next to each other.
pub open spec fn no_blank_line(s: Seq<char>) -> bool {
    forall|i: int| 0 <= i < s.len() - 1 ==> !(#[trigger] s[i] == '\n' && s[i + 1] == '\n')
}

/// A character that a written timestamp is made of.
pub open spec fn is_timestamp_char(c: char) -> bool {
    is_numeral_char(c) || c == ':' || c == ','
}

/// A written timestamp is non-empty, made of numerals, `:` and `,`, and starts with a
/// numeral.
proof fn lemma_timestamp_chars(ms: i64)
    ensures
        spec_format_timestamp(ms).len() > 0,
        is_numeral_char(spec_format_timestamp(ms)[0]),
        forall|i: int| 0 <= i < spec_format_timestamp(ms).len()
            ==> is_timestamp_char(#[trigger] spec_format_timestamp(ms)[i]),
{
    let x = ms as int;
    let hv = trunc_div(x, 3_600_000);
    let mv = trunc_div(trunc_rem(x, 3_600_000), 60_000);
    let sv = trunc_div(trunc_rem(x, 60_000), 1000);
    let rv = trunc_rem(x, 1000);
    lemma_zero_padded_chars(hv, 2);
    lemma_zero_padded_chars(mv, 2);
    lemma_zero_padded_chars(sv, 2);
    lemma_zero_padded_chars(rv, 3);
    let pa = zero_padded(hv, 2);
    let pb = zero_padded(mv, 2);
    let pc = zero_padded(sv, 2);
    let pd = zero_padded(rv, 3);
    let f = spec_format_timestamp(ms);
    assert(f[0] == pa[0]);
    assert forall|i: int| 0 <= i < f.len() implies is_timestamp_char(#[trigger] f[i]) by {
        let o1 = pa.len() + 1;
        let o2 = o1 + pb.len() + 1;
        let o3 = o2 + pc.len() + 1;
        if i < pa.len() {
            assert(f[i] == pa[i]);
        } else if i < o1 {
        } else if i < o1 + pb.len() {
            assert(f[i] == pb[i - o1]);
        } else if i < o2 {
        } else if i < o2 + pc.len() {
            assert(f[i] == pc[i - o2]);
        } else if i < o3 {
        } else {
            assert(f[i] == pd[i - o3]);
        }
    }
}

/// The part of a cue before its closing line ending:
/// `{number}\n{start} --> {end}\n{text}`.
pub open spec fn cue_core(number: nat, seg: SegmentView) -> Seq<char> {
    decimal(number) + seq!['\n'] + (spec_format_timestamp(seg.start) + arrow()
        + spec_format_timestamp(seg.end)) + seq!['\n'] + seg.text
}

/// The line of a cue that holds its two timestamps.
pub open spec fn cue_times(seg: SegmentView) -> Seq<char> {
    spec_format_timestamp(seg.start) + arrow() + spec_format_timestamp(seg.end)
}

/// Gluing two texts without a blank line makes no blank line unless the seam is one.
proof fn lemma_no_blank_line_concat(a: Seq<char>, b: Seq<char>)
    requires
        no_blank_line(a),
        no_blank_line(b),
        a.len() > 0 && b.len() > 0 ==> !(a.last() == '\n' && b[0] == '\n'),
    ensures
        no_blank_line(a + b),
{
    let s = a + b;
    assert forall|i: int| 0 <= i < s.len() - 1 implies !(#[trigger] s[i] == '\n' && s[i + 1] == '\n') by {
        if i < a.len() - 1 {
            assert(s[i] == a[i] && s[i + 1] == a[i + 1]);
        } else if i == a.len() - 1 {
            assert(s[i] == a.last() && s[i + 1] == b[0]);
        } else {
            assert(s[i] == b[i - a.len()] && s[i + 1] == b[i - a.len() + 1]);
        }
    }
}

/// The timestamp line of a cue splits at ` --> ` into its two timestamps, and holds
/// no line ending.
#[verifier::spinoff_prover]
#[verifier::rlimit(40)]
proof fn lemma_cue_times(seg: SegmentView)
    ensures
        split_on(cue_times(seg), arrow()) == seq![spec_format_timestamp(seg.start), spec_format_timestamp(seg.end)],
        forall|i: int| 0 <= i < cue_times(seg).len() ==> #[trigger] cue_times(seg)[i] != '\n',
        cue_times(seg).len() > 0,
        cue_times(seg)[0] != '\n',
{
    let f1 = spec_format_timestamp(seg.start);
    let f2 = spec_format_timestamp(seg.end);
    lemma_timestamp_chars(seg.start);
    lemma_timestamp_chars(seg.end);
    let t = cue_times(seg);
    assert forall|p: int| 0 <= p < f1.len() implies !occurs_at(t, arrow(), p) by {
        assert(t[p] == f1[p]);
        assert(is_timestamp_char(f1[p]));
        if occurs_at(t, arrow(), p) {
            assert(t.subrange(p, p + 5)[0] == t[p]);
        }
    }
    lemma_split_first(f1, arrow(), f2);
    assert forall|p: int| 0 <= p < f2.len() implies !occurs_at(f2, arrow(), p) by {
        assert(is_timestamp_char(f2[p]));
        if occurs_at(f2, arrow(), p) {
            assert(f2.subrange(p, p + 5)[0] == f2[p]);
        }
    }
    lemma_split_absent(f2, arrow());
    assert(split_on(t, arrow()) =~= seq![f1, f2]);
    assert forall|i: int| 0 <= i < t.len() implies #[trigger] t[i] != '\n' by {
        if i < f1.len() {
            assert(t[i] == f1[i]);
            assert(is_timestamp_char(f1[i]));
        } else if i < f1.len() + 5 {
            assert(t[i] == arrow()[i - f1.len()]);
        } else {
            assert(t[i] == f2[i - f1.len() - 5]);
            assert(is_timestamp_char(f2[i - f1.len() - 5]));
        }
    }
}

/// A cue's core starts with a digit, ends with the last character of its text, has no
/// blank line, and parses back into its segment, also with a line ending after it.
#[verifier::spinoff_prover]
#[verifier::rlimit(40)]
proof fn lemma_cue_core(number: nat, seg: SegmentView)
    requires
        is_cue_text(seg.text),
    ensures
        cue_core(number, seg).len() > 0,
        is_digit(cue_core(number, seg)[0]),
        cue_core(number, seg).last() == seg.text.last(),
        no_blank_line(cue_core(number, seg)),
        forall|i: int| 0 <= i < cue_core(number, seg).len() ==> #[trigger] cue_core(number, seg)[i] != '\r',
        spec_parse_block(cue_core(number, seg)) == Some(Ok::<Option<SegmentView>, Seq<char>>(Some(seg))),
        spec_parse_block(cue_core(number, seg) + seq!['\n']) == Some(Ok::<Option<SegmentView>, Seq<char>>(Some(seg))),
{
    let nl = seq!['\n'];
    let d = decimal(number);
    let t = cue_times(seg);
    let text = seg.text;
    let core = cue_core(number, seg);
    lemma_decimal(number);
    lemma_cue_times(seg);
    assert(core =~= d + nl + t + nl + text);
    assert(core[0] == d[0]);
    assert(core.last() == text.last());

    // no blank line and no carriage return
    assert(no_blank_line(d)) by {
        assert forall|i: int| 0 <= i < d.len() - 1 implies !(#[trigger] d[i] == '\n' && d[i + 1] == '\n') by {
            assert(is_digit(d[i]));
        }
    }
    assert(no_blank_line(t));
    assert(no_blank_line(nl));
    assert(is_digit(d.last()));
    lemma_no_blank_line_concat(d, nl);
    lemma_no_blank_line_concat(d + nl, t);
    lemma_no_blank_line_concat(d + nl + t, nl);
    lemma_no_blank_line_concat(d + nl + t + nl, text);
    assert forall|i: int| 0 <= i < core.len() implies #[trigger] core[i] != '\r' by {
        if i < d.len() {
            assert(core[i] == d[i]);
            assert(is_digit(d[i]));
        } else if i == d.len() {
        } else if i < d.len() + 1 + t.len() {
            assert(core[i] == t[i - d.len() - 1]);
            lemma_timestamp_chars(seg.start);
            lemma_timestamp_chars(seg.end);
            let f1 = spec_format_timestamp(seg.start);
            let j = i - d.len() - 1;
            if j < f1.len() {
                assert(t[j] == f1[j]);
                assert(is_timestamp_char(f1[j]));
            } else if j < f1.len() + 5 {
                assert(t[j] == arrow()[j - f1.len()]);
            } else {
                assert(t[j] == spec_format_timestamp(seg.end)[j - f1.len() - 5]);
                assert(is_timestamp_char(spec_format_timestamp(seg.end)[j - f1.len() - 5]));
            }
        } else if i == d.len() + 1 + t.len() {
        } else {
            assert(core[i] == text[i - d.len() - 2 - t.len()]);
        }
    }

    // the block is its own trim, also with a line ending after it
    assert(!is_white_space(core[0]));
    lemma_trim_unchanged(core);
    let block2 = core + nl;
    assert(trim_start(block2) == block2);
    assert(block2.drop_last() =~= core);
    assert(trim_end(block2) == trim_end(core));
    assert(trim(block2) == core);

    // its lines are the number, the timestamps, then the lines of the text
    assert forall|p: int| 0 <= p < d.len() implies !occurs_at(d + nl + (t + nl + text), nl, p) by {
        assert((d + nl + (t + nl + text))[p] == d[p]);
        assert(is_digit(d[p]));
        if occurs_at(d + nl + (t + nl + text), nl, p) {
            lemma_occurs_single(d + nl + (t + nl + text), '\n', p);
        }
    }
    lemma_split_first(d, nl, t + nl + text);
    assert forall|p: int| 0 <= p < t.len() implies !occurs_at(t + nl + text, nl, p) by {
        assert((t + nl + text)[p] == t[p]);
        if occurs_at(t + nl + text, nl, p) {
            lemma_occurs_single(t + nl + text, '\n', p);
        }
    }
    lemma_split_first(t, nl, text);
    assert(d + nl + (t + nl + text) =~= core);
    let lines = split_on(core, nl);
    assert(lines == seq![d] + (seq![t] + split_on(text, nl)));
    lemma_split_nonempty(text, nl);
    assert(lines[1] == t);
    assert(lines.skip(2) =~= split_on(text, nl));
    lemma_join_split(text, nl);
    lemma_timestamp_round_trip(seg.start);
    lemma_timestamp_round_trip(seg.end);
    let parsed = SegmentView { start: seg.start, end: seg.end, text: join_with(lines.skip(2), nl) };
    assert(parsed == seg);
}

/// Cues, each followed by a line ending and joined with line endings, split at blank
/// lines into the cues again; the last keeps its line ending.
#[verifier::spinoff_prover]
#[verifier::rlimit(40)]
proof fn lemma_split_cues(cores: Seq<Seq<char>>)
    requires
        cores.len() >= 1,
        forall|i: int| 0 <= i < cores.len() ==> (#[trigger] cores[i]).len() > 0 && no_blank_line(cores[i])
            && cores[i].last() != '\n',
    ensures
        split_on(join_with(Seq::new(cores.len(), |i: int| cores[i] + seq!['\n']), seq!['\n']), seq!['\n', '\n'])
            == Seq::new(cores.len(), |i: int| if i < cores.len() - 1 { cores[i] } else { cores[i] + seq!['\n'] }),
    decreases cores.len(),
{
    let nl = seq!['\n'];
    let nlnl = seq!['\n', '\n'];
    let w = Seq::new(cores.len(), |i: int| cores[i] + nl);
    let c0 = cores[0];
    if cores.len() == 1 {
        let s = c0 + nl;
        assert(join_with(w, nl) == w[0]);
        assert forall|p: int| 0 <= p < s.len() implies !occurs_at(s, nlnl, p) by {
            if occurs_at(s, nlnl, p) {
                assert(s.subrange(p, p + 2)[0] == s[p]);
                assert(s.subrange(p, p + 2)[1] == s[p + 1]);
                if p < c0.len() - 1 {
                    assert(s[p] == c0[p] && s[p + 1] == c0[p + 1]);
                } else {
                    assert(s[p] == c0.last());
                }
            }
        }
        lemma_split_absent(s, nlnl);
        assert(split_on(s, nlnl) =~= Seq::new(cores.len(), |i: int| if i < cores.len() - 1 { cores[i] } else { cores[i] + nl }));
    } else {
        let rest = cores.drop_first();
        let wr = Seq::new(rest.len(), |i: int| rest[i] + nl);
        assert(w.drop_first() =~= wr);
        lemma_join_front(w, nl);
        let j = join_with(wr, nl);
        assert(join_with(w, nl) =~= c0 + nlnl + j);
        assert forall|p: int| 0 <= p < c0.len() implies !occurs_at(c0 + nlnl + j, nlnl, p) by {
            let s = c0 + nlnl + j;
            if occurs_at(s, nlnl, p) {
                assert(s.subrange(p, p + 2)[0] == s[p]);
                assert(s.subrange(p, p + 2)[1] == s[p + 1]);
                if p < c0.len() - 1 {
                    assert(s[p] == c0[p] && s[p + 1] == c0[p + 1]);
                } else {
                    assert(s[p] == c0.last());
                }
            }
        }
        lemma_split_first(c0, nlnl, j);
        assert forall|i: int| 0 <= i < rest.len() implies (#[trigger] rest[i]).len() > 0 && no_blank_line(rest[i])
            && rest[i].last() != '\n' by {
            assert(rest[i] == cores[i + 1]);
        }
        lemma_split_cues(rest);
        assert(split_on(join_with(w, nl), nlnl)
            =~= Seq::new(cores.len(), |i: int| if i < cores.len() - 1 { cores[i] } else { cores[i] + nl }));
    }
}

/// Blocks that each parse into the matching segment parse into all the segments.
proof fn lemma_parse_cue_blocks(blocks: Seq<Seq<char>>, segs: Seq<SegmentView>)
    requires
        blocks.len() == segs.len(),
        forall|i: int| 0 <= i < blocks.len() ==> spec_parse_block(#[trigger] blocks[i])
            == Some(Ok::<Option<SegmentView>, Seq<char>>(Some(segs[i]))),
    ensures
        spec_parse_blocks(blocks) == Some(Ok::<Seq<SegmentView>, Seq<char>>(segs)),
    decreases blocks.len(),
{
    if blocks.len() == 0 {
        assert(segs =~= Seq::<SegmentView>::empty());
    } else {
        assert(spec_parse_block(blocks[0]) == Some(Ok::<Option<SegmentView>, Seq<char>>(Some(segs[0]))));
        assert forall|i: int| 0 <= i < blocks.drop_first().len() implies spec_parse_block(#[trigger] blocks.drop_first()[i])
            == Some(Ok::<Option<SegmentView>, Seq<char>>(Some(segs.drop_first()[i]))) by {
            assert(blocks.drop_first()[i] == blocks[i + 1]);
        }
        lemma_parse_cue_blocks(blocks.drop_first(), segs.drop_first());
        assert(seq![segs[0]] + segs.drop_first() =~= segs);
    }
}

/// Text without `\r` is unchanged by normalising its line endings.
proof fn lemma_normalize_unchanged(s: Seq<char>)
    requires
        forall|i: int| 0 <= i < s.len() ==> #[trigger] s[i] != '\r',
    ensures
        normalize_line_endings(s) == s,
{
    let crlf = seq!['\r', '\n'];
    let cr = seq!['\r'];
    assert forall|p: int| 0 <= p < s.len() implies !occurs_at(s, crlf, p) by {
        if occurs_at(s, crlf, p) {
            assert(s.subrange(p, p + 2)[0] == s[p]);
        }
    }
    lemma_split_absent(s, crlf);
    assert(join_with(seq![s], seq!['\n']) == s);
    assert forall|p: int| 0 <= p < s.len() implies !occurs_at(s, cr, p) by {
        if occurs_at(s, cr, p) {
            lemma_occurs_single(s, '\r', p);
        }
    }
    lemma_split_absent(s, cr);
}

/// The cores of the cues written for `segs`.
pub open spec fn cue_cores(segs: Seq<SegmentView>) -> Seq<Seq<char>> {
    Seq::new(segs.len(), |i: int| cue_core((i + 1) as nat, segs[i]))
}

/// What the cores of the cues for well-formed segments are like.
#[verifier::spinoff_prover]
#[verifier::rlimit(40)]
proof fn lemma_cue_cores(segs: Seq<SegmentView>)
    requires
        forall|i: int| 0 <= i < segs.len() ==> is_cue_text(#[trigger] segs[i].text),
    ensures
        forall|i: int| 0 <= i < segs.len() ==> (#[trigger] cue_cores(segs)[i]).len() > 0
            && no_blank_line(cue_cores(segs)[i]) && cue_cores(segs)[i].last() != '\n',
        forall|i: int| 0 <= i < segs.len() ==> spec_parse_block(#[trigger] cue_cores(segs)[i])
            == Some(Ok::<Option<SegmentView>, Seq<char>>(Some(segs[i]))),
        forall|i: int| 0 <= i < segs.len() ==> spec_parse_block(#[trigger] cue_cores(segs)[i] + seq!['\n'])
            == Some(Ok::<Option<SegmentView>, Seq<char>>(Some(segs[i]))),
        forall|k: int, j: int| 0 <= k < segs.len() && 0 <= j < cue_cores(segs)[k].len()
            ==> #[trigger] cue_cores(segs)[k][j] != '\r',
        srt_entries(segs) == Seq::new(segs.len(), |i: int| cue_cores(segs)[i] + seq!['\n']),
{
    let cores = cue_cores(segs);
    assert forall|i: int| 0 <= i < segs.len() implies (#[trigger] cores[i]).len() > 0 && no_blank_line(cores[i])
        && cores[i].last() != '\n' && (forall|j: int| 0 <= j < cores[i].len() ==> #[trigger] cores[i][j] != '\r')
        && spec_parse_block(cores[i]) == Some(Ok::<Option<SegmentView>, Seq<char>>(Some(segs[i])))
        && spec_parse_block(cores[i] + seq!['\n']) == Some(Ok::<Option<SegmentView>, Seq<char>>(Some(segs[i]))) by {
        lemma_cue_core((i + 1) as nat, segs[i]);
    }
    assert forall|k: int, j: int| 0 <= k < segs.len() && 0 <= j < cores[k].len() implies #[trigger] cores[k][j] != '\r' by {
        assert(cores[k].len() > 0);
    }
    assert(srt_entries(segs) =~= Seq::new(segs.len(), |i: int| cores[i] + seq!['\n'])) by {
        assert forall|i: int| 0 <= i < segs.len() implies #[trigger] srt_entries(segs)[i] == cores[i] + seq!['\n'] by {
            assert(srt_entries(segs)[i] =~= cores[i] + seq!['\n']);
        }
    }
}

/// No segments make a document that parses into no segments.
#[verifier::spinoff_prover]
#[verifier::rlimit(40)]
proof fn lemma_srt_round_trip_empty()
    ensures
        spec_parse_srt(spec_generate_srt(Seq::<SegmentView>::empty()))
            == Some(Ok::<Seq<SegmentView>, Seq<char>>(Seq::<SegmentView>::empty())),
{
    let doc = spec_generate_srt(Seq::<SegmentView>::empty());
    assert(srt_entries(Seq::<SegmentView>::empty()).len() == 0);
    assert(doc =~= Seq::<char>::empty());
    lemma_normalize_unchanged(doc);
    lemma_split_absent(doc, seq!['\n', '\n']);
    let blocks = seq![Seq::<char>::empty()];
    assert(normalize_line_endings(doc) == doc);
    assert(split_on(normalize_line_endings(doc), seq!['\n', '\n']) =~= blocks);
    assert(trim(Seq::<char>::empty()) =~= Seq::<char>::empty());
    assert(spec_parse_block(Seq::<char>::empty()) == Some(Ok::<Option<SegmentView>, Seq<char>>(None)));
    assert(blocks.drop_first() =~= Seq::<Seq<char>>::empty());
    assert(spec_parse_blocks(blocks.drop_first()) == Some(Ok::<Seq<SegmentView>, Seq<char>>(Seq::<SegmentView>::empty())));
    assert(Seq::<SegmentView>::empty() + Seq::<SegmentView>::empty() =~= Seq::<SegmentView>::empty());
    assert(spec_parse_blocks(blocks) == Some(Ok::<Seq<SegmentView>, Seq<char>>(Seq::<SegmentView>::empty())));
}

/// An SRT document written from segments whose texts are cue texts parses back into
/// exactly those segments.
#[verifier::spinoff_prover]
pub proof fn lemma_srt_round_trip(segs: Seq<SegmentView>)
    requires
        forall|i: int| 0 <= i < segs.len() ==> is_cue_text(#[trigger] segs[i].text),
    ensures
        spec_parse_srt(spec_generate_srt(segs)) == Some(Ok::<Seq<SegmentView>, Seq<char>>(segs)),
{
    if segs.len() == 0 {
        assert(segs =~= Seq::<SegmentView>::empty());
        lemma_srt_round_trip_empty();
    } else {
        let nl = seq!['\n'];
        let cores = cue_cores(segs);
        lemma_cue_cores(segs);
        let entries = srt_entries(segs);
        let doc = spec_generate_srt(segs);
        assert forall|k: int, i: int| 0 <= k < entries.len() && 0 <= i < entries[k].len()
            implies #[trigger] entries[k][i] != '\r' by {
            if i < cores[k].len() {
                assert(entries[k][i] == cores[k][i]);
            }
        }
        lemma_join_lacks(entries, seq!['\n'], '\r');
        lemma_normalize_unchanged(doc);
        lemma_split_cues(cores);
        let blocks = Seq::new(cores.len(), |i: int| if i < cores.len() - 1 { cores[i] } else { cores[i] + nl });
        assert(split_on(normalize_line_endings(doc), seq!['\n', '\n']) == blocks);
        assert forall|i: int| 0 <= i < blocks.len() implies spec_parse_block(#[trigger] blocks[i])
            == Some(Ok::<Option<SegmentView>, Seq<char>>(Some(segs[i]))) by {
            if i < cores.len() - 1 {
                assert(blocks[i] == cores[i]);
            } else {
                assert(blocks[i] == cores[i] + nl);
            }
        }
        lemma_parse_cue_blocks(blocks, segs);
    }
}

/// The UTF-8 bytes of an SRT document written from segments whose texts are cue texts
/// decode to that document, which parses back into exactly those segments: reading the
/// file that `generate_srt` wrote gives the segments back.
pub proof fn lemma_srt_bytes_round_trip(segs: Seq<SegmentView>)
    requires
        forall|i: int| 0 <= i < segs.len() ==> is_cue_text(#[trigger] segs[i].text),
    ensures
        spec_decode_subtitles(vstd::utf8::encode_utf8(spec_generate_srt(segs))) == Some(spec_generate_srt(segs)),
        spec_parse_srt(spec_generate_srt(segs)) == Some(Ok::<Seq<SegmentView>, Seq<char>>(segs)),
{
    broadcast use vstd::utf8::encode_utf8_valid_utf8, vstd::utf8::encode_utf8_decode_utf8;
    lemma_srt_round_trip(segs);
    assert(vstd::utf8::valid_utf8(vstd::utf8::encode_utf8(spec_generate_srt(segs))));
}

/// The pieces of a split at a single character do not hold that character.
proof fn lemma_split_pieces_lack(s: Seq<char>, c: char, d: char)
    requires
        d == c || forall|i: int| 0 <= i < s.len() ==> #[trigger] s[i] != d,
    ensures
        forall|k: int, i: int| 0 <= k < split_on(s, seq![c]).len() && 0 <= i < split_on(s, seq![c])[k].len()
            ==> #[trigger] split_on(s, seq![c])[k][i] != d,
    decreases s.len(),
{
    let sep = seq![c];
    if s.len() > 0 && d != c {
        assert forall|i: int| 0 <= i < s.skip(1).len() implies #[trigger] s.skip(1)[i] != d by {
            assert(s.skip(1)[i] == s[i + 1]);
        }
    }
    if s.len() == 0 {
    } else if occurs_at(s, sep, 0) {
        lemma_split_pieces_lack(s.skip(1), c, d);
        let r = split_on(s.skip(1), sep);
        assert(s.skip(sep.len() as int) == s.skip(1));
        assert forall|k: int, i: int| 0 <= k < split_on(s, sep).len() && 0 <= i < split_on(s, sep)[k].len()
            implies #[trigger] split_on(s, sep)[k][i] != d by {
            if k > 0 {
                assert(split_on(s, sep)[k] == r[k - 1]);
            }
        }
    } else {
        lemma_split_pieces_lack(s.skip(1), c, d);
        lemma_split_nonempty(s.skip(1), sep);
        let r = split_on(s.skip(1), sep);
        assert(s.subrange(0, 1) =~= seq![s[0]]);
        assert(s[0] != c);
        assert(s[0] != d);
        assert forall|k: int, i: int| 0 <= k < split_on(s, sep).len() && 0 <= i < split_on(s, sep)[k].len()
            implies #[trigger] split_on(s, sep)[k][i] != d by {
            if k == 0 {
                if i > 0 {
                    assert(split_on(s, sep)[0][i] == r[0][i - 1]);
                }
            } else {
                assert(split_on(s, sep)[k] == r[k]);
            }
        }
    }
}

/// Normalised text holds no `\r`.
proof fn lemma_normalized_has_no_cr(s: Seq<char>)
    ensures
        forall|i: int| 0 <= i < normalize_line_endings(s).len() ==> #[trigger] normalize_line_endings(s)[i] != '\r',
{
    let once = replace_all(s, seq!['\r', '\n'], seq!['\n']);
    lemma_split_pieces_lack(once, '\r', '\r');
    lemma_join_lacks(split_on(once, seq!['\r']), seq!['\n'], '\r');
}

/// `\r\n`, `\r` and `\n` line endings are read alike: a document parses as the same
/// document with its line endings normalised.
pub proof fn lemma_line_endings_alike(content: Seq<char>)
    ensures
        spec_parse_srt(content) == spec_parse_srt(normalize_line_endings(content)),
{
    lemma_normalized_has_no_cr(content);
    lemma_normalize_unchanged(normalize_line_endings(content));
}

/// A document whose lines all end in `\r\n`, or all in `\r`, parses as the same
/// document with `\n` line endings: for text `t` without `\r`, replacing each `\n` by
/// `\r\n`, or by `\r`, leaves the parse unchanged.
pub proof fn lemma_crlf_and_cr_alike(t: Seq<char>)
    requires
        forall|i: int| 0 <= i < t.len() ==> #[trigger] t[i] != '\r',
    ensures
        spec_parse_srt(replace_all(t, seq!['\n'], seq!['\r', '\n'])) == spec_parse_srt(t),
        spec_parse_srt(replace_all(t, seq!['\n'], seq!['\r'])) == spec_parse_srt(t),
{
    let nl = seq!['\n'];
    let cr = seq!['\r'];
    let crlf = seq!['\r', '\n'];
    let parts = split_on(t, nl);
    lemma_split_nonempty(t, nl);
    lemma_split_pieces_lack(t, '\n', '\n');
    lemma_split_pieces_lack(t, '\n', '\r');
    lemma_join_split(t, nl);
    lemma_normalize_unchanged(t);

    // `\r\n` endings: the `\r\n` pieces are the lines, and no `\r` is left.
    let u = replace_all(t, nl, crlf);
    lemma_split_join(parts, crlf);
    assert(replace_all(u, crlf, nl) == t);
    assert forall|p: int| 0 <= p < t.len() implies !occurs_at(t, cr, p) by {
        if occurs_at(t, cr, p) {
            lemma_occurs_single(t, '\r', p);
        }
    }
    lemma_split_absent(t, cr);
    assert(join_with(seq![t], nl) == t);
    assert(normalize_line_endings(u) == t);
    lemma_line_endings_alike(u);

    // `\r` endings: there is no `\n` left, so no `\r\n`; the `\r` pieces are the lines.
    let v = replace_all(t, nl, cr);
    lemma_join_lacks(parts, cr, '\n');
    assert forall|p: int| 0 <= p < v.len() implies !occurs_at(v, crlf, p) by {
        if occurs_at(v, crlf, p) {
            assert(v.subrange(p, p + 2)[1] == v[p + 1]);
        }
    }
    lemma_split_absent(v, crlf);
    assert(join_with(seq![v], nl) == v);
    lemma_split_join(parts, cr);
    assert(normalize_line_endings(v) == t);
    lemma_line_endings_alike(v);
}

/// Subtitle bytes are the UTF-8 encoding of their text (`encode_utf8`). The bytes of a
/// document whose lines end in `\r\n`, or in `\r`, decode to that document, and it
/// parses as the same document with `\n` line endings; so `parse_srt_bytes` gives the
/// same for all three.
pub proof fn lemma_crlf_and_cr_bytes_alike(t: Seq<char>)
    requires
        forall|i: int| 0 <= i < t.len() ==> #[trigger] t[i] != '\r',
    ensures
        spec_decode_subtitles(vstd::utf8::encode_utf8(t)) == Some(t),
        spec_decode_subtitles(vstd::utf8::encode_utf8(replace_all(t, seq!['\n'], seq!['\r', '\n'])))
            == Some(replace_all(t, seq!['\n'], seq!['\r', '\n'])),
        spec_decode_subtitles(vstd::utf8::encode_utf8(replace_all(t, seq!['\n'], seq!['\r'])))
            == Some(replace_all(t, seq!['\n'], seq!['\r'])),
        spec_parse_srt(replace_all(t, seq!['\n'], seq!['\r', '\n'])) == spec_parse_srt(t),
        spec_parse_srt(replace_all(t, seq!['\n'], seq!['\r'])) == spec_parse_srt(t),
{
    broadcast use vstd::utf8::encode_utf8_valid_utf8, vstd::utf8::encode_utf8_decode_utf8;
    lemma_crlf_and_cr_alike(t);
    let u = replace_all(t, seq!['\n'], seq!['\r', '\n']);
    let v = replace_all(t, seq!['\n'], seq!['\r']);
    assert(vstd::utf8::valid_utf8(vstd::utf8::encode_utf8(t)));
    assert(vstd::utf8::valid_utf8(vstd::utf8::encode_utf8(u)));
    assert(vstd::utf8::valid_utf8(vstd::utf8::encode_utf8(v)));
}

/// The first piece of a split is a prefix of the text.
proof fn lemma_first_piece_prefix(s: Seq<char>, sep: Seq<char>)
    requires
        sep.len() > 0,
    ensures
        split_on(s, sep)[0].len() <= s.len(),
        split_on(s, sep)[0] == s.take(split_on(s, sep)[0].len() as int),
    decreases s.len(),
{
    lemma_split_nonempty(s, sep);
    if s.len() == 0 {
        assert(s.take(0) =~= Seq::<char>::empty());
    } else if occurs_at(s, sep, 0) {
        assert(s.take(0) =~= Seq::<char>::empty());
    } else {
        lemma_first_piece_prefix(s.skip(1), sep);
        lemma_split_nonempty(s.skip(1), sep);
        let r0 = split_on(s.skip(1), sep)[0];
        assert(seq![s[0]] + r0 =~= s.take(r0.len() + 1 as int));
    }
}

/// The pieces of a split at blank lines hold no blank line.
proof fn lemma_blocks_no_blank_line(s: Seq<char>, sep: Seq<char>)
    requires
        sep == seq!['\n', '\n'],
    ensures
        forall|k: int| 0 <= k < split_on(s, sep).len() ==> no_blank_line(#[trigger] split_on(s, sep)[k]),
    decreases s.len(),
{
    if s.len() == 0 {
        assert(no_blank_line(Seq::<char>::empty()));
    } else if occurs_at(s, sep, 0) {
        lemma_blocks_no_blank_line(s.skip(2), sep);
        let r = split_on(s.skip(2), sep);
        assert(no_blank_line(Seq::<char>::empty()));
        assert forall|k: int| 0 <= k < split_on(s, sep).len() implies no_blank_line(#[trigger] split_on(s, sep)[k]) by {
            if k > 0 {
                assert(split_on(s, sep)[k] == r[k - 1]);
            }
        }
    } else {
        lemma_blocks_no_blank_line(s.skip(1), sep);
        lemma_split_nonempty(s.skip(1), sep);
        lemma_first_piece_prefix(s.skip(1), sep);
        let r = split_on(s.skip(1), sep);
        let head = seq![s[0]];
        assert(no_blank_line(head));
        assert(no_blank_line(r[0]));
        if r[0].len() > 0 && s[0] == '\n' && r[0][0] == '\n' {
            assert(r[0][0] == s.skip(1).take(r[0].len() as int)[0]);
            assert(s.len() >= 2 && s[1] == '\n');
            assert(s.subrange(0, 2) =~= sep);
        }
        lemma_no_blank_line_concat(head, r[0]);
        assert forall|k: int| 0 <= k < split_on(s, sep).len() implies no_blank_line(#[trigger] split_on(s, sep)[k]) by {
            if k == 0 {
                assert(split_on(s, sep)[0] == head + r[0]);
            } else {
                assert(split_on(s, sep)[k] == r[k]);
            }
        }
    }
}

/// The pieces of a split of text without `c` hold no `c`.
proof fn lemma_split_pieces_without(s: Seq<char>, sep: Seq<char>, c: char)
    requires
        sep.len() > 0,
        forall|i: int| 0 <= i < s.len() ==> #[trigger] s[i] != c,
    ensures
        forall|k: int, i: int| 0 <= k < split_on(s, sep).len() && 0 <= i < split_on(s, sep)[k].len()
            ==> #[trigger] split_on(s, sep)[k][i] != c,
    decreases s.len(),
{
    if s.len() == 0 {
    } else if occurs_at(s, sep, 0) {
        let t = s.skip(sep.len() as int);
        assert forall|i: int| 0 <= i < t.len() implies #[trigger] t[i] != c by {
            assert(t[i] == s[i + sep.len()]);
        }
        lemma_split_pieces_without(t, sep, c);
        let r = split_on(t, sep);
        assert forall|k: int, i: int| 0 <= k < split_on(s, sep).len() && 0 <= i < split_on(s, sep)[k].len()
            implies #[trigger] split_on(s, sep)[k][i] != c by {
            if k > 0 {
                assert(split_on(s, sep)[k] == r[k - 1]);
            }
        }
    } else {
        let t = s.skip(1);
        assert forall|i: int| 0 <= i < t.len() implies #[trigger] t[i] != c by {
            assert(t[i] == s[i + 1]);
        }
        lemma_split_pieces_without(t, sep, c);
        lemma_split_nonempty(t, sep);
        let r = split_on(t, sep);
        assert forall|k: int, i: int| 0 <= k < split_on(s, sep).len() && 0 <= i < split_on(s, sep)[k].len()
            implies #[trigger] split_on(s, sep)[k][i] != c by {
            if k == 0 {
                if i > 0 {
                    assert(split_on(s, sep)[0][i] == r[0][i - 1]);
                }
            } else {
                assert(split_on(s, sep)[k] == r[k]);
            }
        }
    }
}

/// Trimming keeps a stretch of the text that, unless empty, neither starts nor ends
/// with white space.
proof fn lemma_trim_bounds(s: Seq<char>) -> (r: (int, int))
    ensures
        0 <= r.0 <= r.1 <= s.len(),
        trim(s) == s.subrange(r.0, r.1),
        trim(s).len() > 0 ==> !is_white_space(trim(s)[0]) && !is_white_space(trim(s).last()),
{
    let a = lemma_trim_start_skip(s);
    let t = trim_start(s);
    let e = lemma_trim_end_take(t);
    assert(trim(s) =~= s.subrange(a, a + e));
    if trim(s).len() > 0 {
        assert(trim(s)[0] == t[0]);
    }
    (a, a + e)
}

proof fn lemma_trim_start_skip(s: Seq<char>) -> (a: int)
    ensures
        0 <= a <= s.len(),
        trim_start(s) == s.skip(a),
        trim_start(s).len() > 0 ==> !is_white_space(trim_start(s)[0]),
    decreases s.len(),
{
    if s.len() > 0 && is_white_space(s[0]) {
        let a = lemma_trim_start_skip(s.skip(1));
        assert(s.skip(1).skip(a) =~= s.skip(a + 1));
        a + 1
    } else {
        assert(s.skip(0) =~= s);
        0
    }
}

proof fn lemma_trim_end_take(s: Seq<char>) -> (e: int)
    ensures
        0 <= e <= s.len(),
        trim_end(s) == s.take(e),
        trim_end(s).len() > 0 ==> !is_white_space(trim_end(s).last()),
    decreases s.len(),
{
    if s.len() > 0 && is_white_space(s.last()) {
        let e = lemma_trim_end_take(s.drop_last());
        assert(s.drop_last().take(e) =~= s.take(e));
        e
    } else {
        assert(s.take(s.len() as int) =~= s);
        s.len() as int
    }
}

/// A stretch of text without a blank line or `\r` has none either.
proof fn lemma_subrange_clean(s: Seq<char>, a: int, e: int)
    requires
        0 <= a <= e <= s.len(),
        no_blank_line(s),
        forall|i: int| 0 <= i < s.len() ==> #[trigger] s[i] != '\r',
    ensures
        no_blank_line(s.subrange(a, e)),
        forall|i: int| 0 <= i < e - a ==> #[trigger] s.subrange(a, e)[i] != '\r',
{
    let t = s.subrange(a, e);
    assert forall|i: int| 0 <= i < t.len() - 1 implies !(#[trigger] t[i] == '\n' && t[i + 1] == '\n') by {
        assert(t[i] == s[a + i] && t[i + 1] == s[a + i + 1]);
    }
    assert forall|i: int| 0 <= i < e - a implies #[trigger] t[i] != '\r' by {
        assert(t[i] == s[a + i]);
    }
}

/// A parsed block's segment text is the trimmed block's lines from the third on.
proof fn lemma_block_text_shape(block: Seq<char>)
    ensures
        spec_parse_block(block) matches Some(Ok(Some(seg))) ==> {
            &&& trim(block).len() > 0
            &&& split_on(trim(block), seq!['\n']).len() >= 3
            &&& seg.text == join_with(split_on(trim(block), seq!['\n']).skip(2), seq!['\n'])
        },
{
}

/// The lines of clean text from the third on, joined again, are a cue text.
#[verifier::spinoff_prover]
proof fn lemma_tail_lines(b: Seq<char>)
    requires
        b.len() > 0,
        !is_white_space(b.last()),
        no_blank_line(b),
        forall|i: int| 0 <= i < b.len() ==> #[trigger] b[i] != '\r',
        split_on(b, seq!['\n']).len() >= 3,
    ensures
        is_cue_text(join_with(split_on(b, seq!['\n']).skip(2), seq!['\n'])),
{
    let nl = seq!['\n'];
    let lines = split_on(b, nl);
    lemma_join_split(b, nl);
    lemma_join_front(lines, nl);
    let rest1 = lines.drop_first();
    lemma_join_front(rest1, nl);
    assert(rest1.drop_first() =~= lines.skip(2));
    let t = join_with(lines.skip(2), nl);
    let l0 = lines[0];
    let l1 = lines[1];
    assert(b == l0 + nl + (l1 + nl + t));
    let off: int = (l0.len() + 1 + l1.len() + 1) as int;
    assert(b =~= (l0 + nl + l1 + nl) + t);
    assert(b.skip(off) =~= t);
    if t.len() == 0 {
        assert(b.last() == '\n');
    }
    assert(t.last() == b.last());
    if t[0] == '\n' {
        assert(b[off - 1] == '\n');
        assert(b[off] == t[0]);
    }
    assert forall|i: int| 0 <= i < t.len() implies #[trigger] t[i] != '\r' by {
        assert(t[i] == b[off + i]);
    }
    assert forall|i: int| 0 <= i < t.len() - 1 implies !(#[trigger] t[i] == '\n' && t[i + 1] == '\n') by {
        assert(t[i] == b[off + i] && t[i + 1] == b[off + i + 1]);
    }
}

/// The text of a segment parsed from a block without a blank line or `\r` is a cue
/// text.
proof fn lemma_block_text(block: Seq<char>)
    requires
        no_blank_line(block),
        forall|i: int| 0 <= i < block.len() ==> #[trigger] block[i] != '\r',
    ensures
        spec_parse_block(block) matches Some(Ok(Some(seg))) ==> is_cue_text(seg.text),
{
    lemma_block_text_shape(block);
    if let Some(Ok(Some(seg))) = spec_parse_block(block) {
        let (a, e) = lemma_trim_bounds(block);
        lemma_subrange_clean(block, a, e);
        lemma_tail_lines(trim(block));
    }
}

/// Every segment parsed from blocks without a blank line or `\r` has a cue text.
proof fn lemma_parsed_texts(blocks: Seq<Seq<char>>)
    requires
        forall|k: int| 0 <= k < blocks.len() ==> no_blank_line(#[trigger] blocks[k]),
        forall|k: int, i: int| 0 <= k < blocks.len() && 0 <= i < blocks[k].len() ==> #[trigger] blocks[k][i] != '\r',
    ensures
        spec_parse_blocks(blocks) matches Some(Ok(segs)) ==>
            forall|i: int| 0 <= i < segs.len() ==> is_cue_text(#[trigger] segs[i].text),
    decreases blocks.len(),
{
    if blocks.len() > 0 {
        let rest = blocks.drop_first();
        assert forall|k: int| 0 <= k < rest.len() implies no_blank_line(#[trigger] rest[k]) by {
            assert(rest[k] == blocks[k + 1]);
        }
        assert forall|k: int, i: int| 0 <= k < rest.len() && 0 <= i < rest[k].len() implies #[trigger] rest[k][i] != '\r' by {
            assert(rest[k] == blocks[k + 1]);
            assert(blocks[k + 1][i] != '\r');
        }
        lemma_parsed_texts(rest);
        assert(no_blank_line(blocks[0]));
        assert forall|i: int| 0 <= i < blocks[0].len() implies #[trigger] blocks[0][i] != '\r' by {
            assert(blocks[0][i] != '\r');
        }
        lemma_block_text(blocks[0]);
        if let Some(Ok(segs)) = spec_parse_blocks(blocks) {
            if let Some(Ok(first)) = spec_parse_block(blocks[0]) {
                if let Some(Ok(r)) = spec_parse_blocks(rest) {
                    let head = match first { Some(seg) => seq![seg], None => Seq::<SegmentView>::empty() };
                    assert(segs == head + r);
                    assert forall|i: int| 0 <= i < segs.len() implies is_cue_text(#[trigger] segs[i].text) by {
                        if i < head.len() {
                            assert(segs[i] == head[i]);
                        } else {
                            assert(segs[i] == r[i - head.len()]);
                        }
                    }
                }
            }
        }
    }
}

/// Parsing a document, writing the segments as a document and parsing that again
/// gives the same segments.
#[verifier::spinoff_prover]
pub proof fn lemma_reparse(content: Seq<char>)
    ensures
        spec_parse_srt(content) matches Some(Ok(segs)) ==>
            spec_parse_srt(spec_generate_srt(segs)) == Some(Ok::<Seq<SegmentView>, Seq<char>>(segs)),
{
    let norm = normalize_line_endings(content);
    lemma_normalized_has_no_cr(content);
    let blocks = split_on(norm, seq!['\n', '\n']);
    lemma_blocks_no_blank_line(norm, seq!['\n', '\n']);
    lemma_split_pieces_without(norm, seq!['\n', '\n'], '\r');
    lemma_parsed_texts(blocks);
    if let Some(Ok(segs)) = spec_parse_srt(content) {
        lemma_srt_round_trip(segs);
    }
}

} // verus!
