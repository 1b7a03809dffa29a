//! Frames, thumbnails and embedded subtitles of media files.
use vstd::prelude::*;
use crate::errors::FolioError;
use crate::number::{trunc_div, fits_i64};
use crate::subtitles::{Segment, SegmentView};
use crate::text::{split_on, join_with, trim, split_chars, join_chars_from, trim_chars, chars_of,
    string_from_chars, lemma_join_split, lemma_split_fields_then, lemma_split_join, lemma_split_nonempty};

verus! {

/// A decoded video frame: `width` by `height` RGBA pixels, row by row.
#[derive(Debug, Clone)]
pub struct RawFrame {
    pub data: Vec<u8>,
    pub width: u32,
    pub height: u32,
}

/// One side of a frame shrunk by `shrink_factor`: `max(side / shrink_factor, 1)`.
pub fn shrunk_side(side: u32, shrink_factor: u32) -> (res: u32)
    requires
        shrink_factor > 0,
    ensures
        res == (if side / shrink_factor >= 1 { side / shrink_factor } else { 1 }),
{
    let s = side / shrink_factor;
    if s >= 1 { s } else { 1 }
}

#[verifier::external_type_specification]
#[verifier::external_body]
pub struct ExImageError(image::ImageError);

/// The PNG file that `image` writes for an RGBA image of the given size and pixels, or
/// `None` where writing fails.
pub uninterp spec fn png_encoding(width: u32, height: u32, pixels: Seq<u8>) -> Option<Seq<u8>>;

/// `image::write_buffer_with_format` with the colour type `Rgba8` and the format `Png`,
/// into an in-memory buffer: what `ImageBuffer::write_to` does for an RGBA image, whose
/// pixel bytes are the first `4 * width * height` bytes of its buffer. Trusted to
/// succeed exactly where `png_encoding` is `Some`, with those bytes; what they are is
/// not stated. The PNG encoder asserts that the buffer has exactly the image's size.
#[verifier::external_body]
fn write_png(pixels: &[u8], width: u32, height: u32) -> (res: Result<Vec<u8>, image::ImageError>)
    requires
        pixels@.len() == 4 * width * height,
    ensures
        res is Ok <==> png_encoding(width, height, pixels@) is Some,
        res matches Ok(b) ==> Some(b@) == png_encoding(width, height, pixels@),
{
    let mut out = std::io::Cursor::new(Vec::new());
    match image::write_buffer_with_format(&mut out, pixels, width, height,
        image::ExtendedColorType::Rgba8, image::ImageFormat::Png) {
        Ok(()) => Ok(out.into_inner()),
        Err(e) => Err(e),
    }
}

/// The character of a six-bit value in the standard Base64 alphabet.
pub open spec fn base64_char(v: int) -> char {
    if v < 26 {
        (('A' as int) + v) as char
    } else if v < 52 {
        (('a' as int) + v - 26) as char
    } else if v < 62 {
        (('0' as int) + v - 52) as char
    } else if v == 62 {
        '+'
    } else {
        '/'
    }
}

/// Standard Base64 with padding (RFC 4648, section 4): every three bytes become four
/// characters, and a last group of one or two bytes is padded with `=`.
pub open spec fn spec_base64(b: Seq<u8>) -> Seq<char>
    decreases b.len(),
{
    if b.len() == 0 {
        Seq::<char>::empty()
    } else {
        let x: int = b[0] as int;
        let y: int = if b.len() > 1 { b[1] as int } else { 0 };
        let z: int = if b.len() > 2 { b[2] as int } else { 0 };
        let c1 = base64_char(x / 4);
        let c2 = base64_char((x % 4) * 16 + y / 16);
        let c3 = if b.len() > 1 { base64_char((y % 16) * 4 + z / 64) } else { '=' };
        let c4 = if b.len() > 2 { base64_char(z % 64) } else { '=' };
        if b.len() <= 3 {
            seq![c1, c2, c3, c4]
        } else {
            seq![c1, c2, c3, c4] + spec_base64(b.skip(3))
        }
    }
}

/// `base64`'s `STANDARD` engine encoding `bytes`: trusted to give standard Base64 with
/// padding, as the engine's documentation says.
#[verifier::external_body]
fn base64_standard(bytes: &[u8]) -> (res: String)
    ensures
        res@ == spec_base64(bytes@),
{
    base64::Engine::encode(&base64::engine::general_purpose::STANDARD, bytes)
}

/// `ImageError`'s `Display` text, which is not stated.
#[verifier::external_body]
fn image_error_text(e: &image::ImageError) -> String {
    e.to_string()
}

/// The number of bytes that a `width` by `height` RGBA image takes.
pub open spec fn rgba_len(width: u32, height: u32) -> int {
    4 * width * height
}

/// A PNG file as a `data:` URL: `data:image/png;base64,` and the file in standard
/// Base64.
pub fn png_data_url(png: &[u8]) -> (res: String)
    ensures
        res@ == "data:image/png;base64,"@ + spec_base64(png@),
{
    let encoded = base64_standard(png);
    let mut url = String::from_str("data:image/png;base64,");
    url.append(encoded.as_str());
    url
}

impl RawFrame {
    /// The frame as a PNG image in a `data:` URL. The pixel buffer must hold at least
    /// `4 * width * height` bytes, else a media error; the image is the first that many
    /// bytes. A failure to write the PNG is an image error.
    pub fn to_base64_png(&self) -> (res: Result<String, FolioError>)
        ensures
            rgba_len(self.width, self.height) > self.data@.len() ==> (res matches Err(FolioError::MediaError(m))
                && m@ == "Failed to create image from raw frame"@),
            rgba_len(self.width, self.height) <= self.data@.len() ==> match png_encoding(self.width, self.height,
                self.data@.take(rgba_len(self.width, self.height))) {
                None => res matches Err(FolioError::ImageError(_)),
                Some(png) => res matches Ok(s) && s@ == "data:image/png;base64,"@ + spec_base64(png),
            },
    {
        let w = self.width as u128;
        let h = self.height as u128;
        assert(4 * w * h <= 4 * 0xffff_ffffu128 * 0xffff_ffffu128) by (nonlinear_arith)
            requires
                w <= 0xffff_ffff,
                h <= 0xffff_ffff,
        ;
        let needed: u128 = 4 * w * h;
        if needed > self.data.len() as u128 {
            return Err(FolioError::MediaError(String::from_str("Failed to create image from raw frame")));
        }
        let n = needed as usize;
        let mut pixels: Vec<u8> = Vec::new();
        let mut i: usize = 0;
        while i < n
            invariant
                i <= n <= self.data.len(),
                n == rgba_len(self.width, self.height),
                pixels@ == self.data@.take(i as int),
            decreases n - i,
        {
            pixels.push(self.data[i]);
            i += 1;
            assert(pixels@ =~= self.data@.take(i as int));
        }
        match write_png(pixels.as_slice(), self.width, self.height) {
            Err(e) => Err(FolioError::ImageError(image_error_text(&e))),
            Ok(png) => Ok(png_data_url(png.as_slice())),
        }
    }
}

// ---------------------------------------------------------------------------
// Embedded subtitles

/// What a subtitle rectangle of a media file holds, as far as the subtitles read it.
#[derive(Debug, Clone)]
pub enum SubtitleRect {
    /// Plain text.
    Text(String),
    /// An ASS dialogue line.
    Ass(String),
    /// A bitmap or nothing.
    Other,
}

/// The text of an ASS dialogue line: its tenth comma-separated field and all that
/// follows it (what `splitn(10, ',').nth(9)` gives), trimmed; `None` where the line has
/// fewer than nine commas.
pub open spec fn spec_ass_text(raw: Seq<char>) -> Option<Seq<char>> {
    let fields = split_on(raw, seq![',']);
    if fields.len() >= 10 {
        Some(trim(join_with(fields.skip(9), seq![','])))
    } else {
        None
    }
}

/// The text of an ASS dialogue line is everything after its ninth comma, trimmed,
/// whatever it holds (commas and `\N` line breaks included): for nine fields without a
/// comma, then any text `t`, it is `trim(t)`.
pub proof fn lemma_ass_text_after_nine_fields(fields: Seq<Seq<char>>, t: Seq<char>)
    requires
        fields.len() == 9,
        forall|k: int, i: int| 0 <= k < 9 && 0 <= i < fields[k].len() ==> #[trigger] fields[k][i] != ',',
    ensures
        spec_ass_text(join_with(fields, seq![',']) + seq![','] + t) == Some(trim(t)),
{
    lemma_split_fields_then(fields, ',', t);
    lemma_split_nonempty(t, seq![',']);
    let all = fields + split_on(t, seq![',']);
    assert(all.skip(9) =~= split_on(t, seq![',']));
    lemma_join_split(t, seq![',']);
}

/// A dialogue line with fewer than nine commas has no text: for one to nine fields
/// without a comma, joined by commas, there is none.
pub proof fn lemma_ass_text_too_few_fields(fields: Seq<Seq<char>>)
    requires
        1 <= fields.len() <= 9,
        forall|k: int, i: int| 0 <= k < fields.len() && 0 <= i < fields[k].len() ==> #[trigger] fields[k][i] != ',',
    ensures
        spec_ass_text(join_with(fields, seq![','])) is None,
{
    lemma_split_join(fields, seq![',']);
}

/// The text of an ASS dialogue line.
pub fn ass_dialogue_text(raw: &str) -> (res: Option<String>)
    ensures
        match spec_ass_text(raw@) {
            None => res is None,
            Some(t) => res matches Some(s) && s@ == t,
        },
{
    let chars = chars_of(raw);
    let comma = vec![','];
    assert(comma@ =~= seq![',']);
    let fields = split_chars(&chars, &comma);
    if fields.len() >= 10 {
        let rest = join_chars_from(&fields, 9, &comma);
        let t = trim_chars(&rest);
        Some(string_from_chars(&t))
    } else {
        None
    }
}

/// The text that a subtitle rectangle gives, if any.
pub open spec fn spec_rect_text(rect: SubtitleRect) -> Option<Seq<char>> {
    match rect {
        SubtitleRect::Text(t) => Some(t@),
        SubtitleRect::Ass(a) => spec_ass_text(a@),
        SubtitleRect::Other => None,
    }
}

/// The segment that a subtitle rectangle shown from `start` to `end` gives: one with
/// its text, where it has a text that is not empty.
pub fn subtitle_segment(start: i64, end: i64, rect: &SubtitleRect) -> (res: Option<Segment>)
    ensures
        match spec_rect_text(*rect) {
            Some(t) if t.len() > 0 => res matches Some(seg) && seg@ == (SegmentView { start, end, text: t }),
            _ => res is None,
        },
{
    let text = match rect {
        SubtitleRect::Text(t) => String::from_str(t.as_str()),
        SubtitleRect::Ass(a) => match ass_dialogue_text(a.as_str()) {
            Some(t) => t,
            None => return None,
        },
        SubtitleRect::Other => return None,
    };
    let chars = chars_of(text.as_str());
    if chars.len() == 0 {
        return None;
    }
    Some(Segment { start, end, text })
}

/// `v` clamped to the range of `i64`, as a saturating operation leaves it.
pub open spec fn saturate(v: int) -> int {
    if v > i64::MAX { i64::MAX as int } else if v < i64::MIN { i64::MIN as int } else { v }
}

/// When a subtitle packet is shown, in milliseconds: its presentation time (0 where it
/// has none) and its duration are scaled by the time base `num / den` with saturating
/// multiplications, and the end is the start plus the duration. `None` where the
/// arithmetic panics: a zero denominator, a quotient that leaves the range of `i64`,
/// or an end that does.
pub open spec fn spec_packet_interval(pts: Option<i64>, duration: i64, num: i32, den: i32) -> Option<(i64, i64)> {
    let p: int = match pts { Some(x) => x as int, None => 0 };
    let a = saturate(saturate(p * num) * 1000);
    let b = saturate(saturate(duration * num) * 1000);
    if den == 0 || !fits_i64(trunc_div(a, den as int)) || !fits_i64(trunc_div(b, den as int)) {
        None
    } else if !fits_i64(trunc_div(a, den as int) + trunc_div(b, den as int)) {
        None
    } else {
        Some((trunc_div(a, den as int) as i64, (trunc_div(a, den as int) + trunc_div(b, den as int)) as i64))
    }
}

/// `v` saturated to `i64`.
fn saturate_exec(v: i128) -> (res: i64)
    ensures
        res == saturate(v as int),
{
    if v > i64::MAX as i128 {
        i64::MAX
    } else if v < i64::MIN as i128 {
        i64::MIN
    } else {
        v as i64
    }
}

/// Rust's `a / b`, where it does not panic.
fn divide(a: i64, b: i64) -> (res: Option<i64>)
    ensures
        match res {
            Some(q) => b != 0 && fits_i64(trunc_div(a as int, b as int)) && q == trunc_div(a as int, b as int),
            None => b == 0 || !fits_i64(trunc_div(a as int, b as int)),
        },
{
    if b == 0 {
        return None;
    }
    let r = a.checked_div(b);
    proof {
        let x = a as int;
        let d = b as int;
        if x < 0 && d < 0 {
            assert((x * -1) == -x);
            assert((d * -1) == -d);
        }
        if x < 0 && d > 0 {
            assert(((x * -1) / d) * -1 == -((-x) / d)) by (nonlinear_arith);
        }
        if x > 0 && d < 0 {
            assert((x / (d * -1)) * -1 == -(x / (-d))) by (nonlinear_arith);
        }
    }
    r
}

/// A product of an `i64` and an `i32` fits in `i128`.
proof fn lemma_product_bound(x: int, y: int)
    requires
        i64::MIN <= x <= i64::MAX,
        i32::MIN <= y <= i32::MAX,
    ensures
        i128::MIN < x * y < i128::MAX,
{
    assert(-0x8000_0000_0000_0000_0000_0000 <= x * y <= 0x8000_0000_0000_0000_0000_0000) by (nonlinear_arith)
        requires
            -0x8000_0000_0000_0000 <= x <= 0x8000_0000_0000_0000,
            -0x8000_0000 <= y <= 0x8000_0000,
    ;
}

/// When a subtitle packet is shown, or `None` where the arithmetic would panic.
pub fn packet_interval(pts: Option<i64>, duration: i64, num: i32, den: i32) -> (res: Option<(i64, i64)>)
    ensures
        res == spec_packet_interval(pts, duration, num, den),
{
    let p: i64 = match pts { Some(x) => x, None => 0 };
    let pw = p as i128;
    let dw = duration as i128;
    let nw = num as i128;
    proof {
        lemma_product_bound(pw as int, nw as int);
        lemma_product_bound(dw as int, nw as int);
    }
    let a = saturate_exec(saturate_exec(pw * nw) as i128 * 1000);
    let b = saturate_exec(saturate_exec(dw * nw) as i128 * 1000);
    let start = match divide(a, den as i64) {
        Some(q) => q,
        None => return None,
    };
    let length = match divide(b, den as i64) {
        Some(q) => q,
        None => return None,
    };
    match start.checked_add(length) {
        Some(end) => Some((start, end)),
        None => None,
    }
}

/// The second of a media file at which the thumbnail of a segment is taken: the middle
/// of the segment, `(start + end) / 2000`; `None` where `start + end` leaves the range
/// of `i64` (where the sum panics).
pub fn thumbnail_second(seg: &Segment) -> (res: Option<i64>)
    ensures
        fits_i64(seg.start + seg.end) ==> res == Some(trunc_div(seg.start + seg.end, 2000) as i64),
        !fits_i64(seg.start + seg.end) ==> res is None,
{
    match seg.start.checked_add(seg.end) {
        Some(sum) => divide(sum, 2000),
        None => None,
    }
}

/// The position, in microseconds, that a thumbnail at second `ts` seeks to:
/// `ts * 1_000_000`, or `None` where that leaves the range of `i64`.
pub fn seek_position(ts: i64) -> (res: Option<i64>)
    ensures
        fits_i64(ts * 1_000_000) ==> res == Some((ts * 1_000_000) as i64),
        !fits_i64(ts * 1_000_000) ==> res is None,
{
    ts.checked_mul(1_000_000)
}

} // verus!
