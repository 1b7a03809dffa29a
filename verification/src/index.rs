//! Which files of a directory walk are media, and which subtitle file goes with each.
use vstd::prelude::*;
use crate::text::{chars_of, string_from_chars, sub_chars};

verus! {

/// A media file found by the walk, with the subtitle file beside it, if there is one.
/// Paths are the walk's paths as text.
#[derive(Debug, Clone)]
pub struct MediaFile {
    pub media: String,
    pub subtitles: Option<String>,
}

/// The mathematical value of a [`MediaFile`].
pub struct MediaFileView {
    pub media: Seq<char>,
    pub subtitles: Option<Seq<char>>,
}

impl View for MediaFile {
    type V = MediaFileView;

    open spec fn view(&self) -> MediaFileView {
        MediaFileView {
            media: self.media@,
            subtitles: match self.subtitles {
                Some(s) => Some(s@),
                None => None,
            },
        }
    }
}

/// The index of the last `c` in `s`, or -1.
pub open spec fn last_index_of(s: Seq<char>, c: char) -> int
    decreases s.len(),
{
    if s.len() == 0 {
        -1
    } else if s.last() == c {
        s.len() - 1
    } else {
        last_index_of(s.drop_last(), c)
    }
}

/// The last index of a character lies within the text, or is -1.
pub proof fn lemma_last_index_bounds(s: Seq<char>, c: char)
    ensures
        -1 <= last_index_of(s, c) < s.len(),
        last_index_of(s, c) >= 0 ==> s[last_index_of(s, c)] == c,
    decreases s.len(),
{
    if s.len() > 0 && s.last() != c {
        lemma_last_index_bounds(s.drop_last(), c);
    }
}

/// Where the file name of path `p` starts: after its last `/`. Paths are given with
/// `/` between their components, as on Unix; where the platform separates them with
/// `\` as well (Windows), the caller writes that separator as `/`.
pub open spec fn name_start(p: Seq<char>) -> int {
    last_index_of(p, '/') + 1
}

/// The file name of `p`: what follows its last `/`. A path from a directory walk ends
/// with the name of the file, so this is `Path::file_name`.
pub open spec fn file_name(p: Seq<char>) -> Seq<char> {
    p.skip(name_start(p))
}

/// The extension of `p` as `Path::extension` gives it: what follows the last `.` of
/// the file name, unless the name has no `.` other than a leading one, is empty, or is
/// `..`.
pub open spec fn extension(p: Seq<char>) -> Option<Seq<char>> {
    let name = file_name(p);
    let k = last_index_of(name, '.');
    if name == seq!['.', '.'] || k <= 0 {
        None
    } else {
        Some(name.skip(k + 1))
    }
}

/// `p` with its extension replaced by `srt`, as `Path::with_extension("srt")` gives it
/// for a path whose file name has an extension: the path up to the last `.` of the file
/// name, then `.srt`; a name without an extension gets `.srt` appended.
pub open spec fn with_srt_extension(p: Seq<char>) -> Seq<char> {
    let start = name_start(p);
    let k = last_index_of(file_name(p), '.');
    let stem_end = if k > 0 { start + k } else { p.len() as int };
    p.take(stem_end) + seq!['.', 's', 'r', 't']
}

/// `c` with ASCII upper case letters made lower case.
pub open spec fn ascii_lower(c: char) -> char {
    if 'A' <= c && c <= 'Z' { ((c as int) + 32) as char } else { c }
}

/// `e` is `srt` in any mix of ASCII case, as `str::eq_ignore_ascii_case` tests it.
pub open spec fn is_srt_ignoring_case(e: Seq<char>) -> bool {
    e.len() == 3 && ascii_lower(e[0]) == 's' && ascii_lower(e[1]) == 'r' && ascii_lower(e[2]) == 't'
}

/// What `str::to_lowercase` gives for `s` (Unicode lower case mapping).
pub uninterp spec fn unicode_lowercase(s: Seq<char>) -> Seq<char>;

/// `str::to_lowercase`. Trusted to give the text that `unicode_lowercase` names;
/// nothing is stated of what that is.
#[verifier::external_body]
fn lowercase(s: &str) -> (res: String)
    ensures
        res@ == unicode_lowercase(s@),
{
    s.to_lowercase()
}

/// The path is a subtitle file: its extension is `srt` in any ASCII case.
pub open spec fn is_subtitle_path(p: Seq<char>) -> bool {
    extension(p) matches Some(e) && is_srt_ignoring_case(e)
}

/// The path is a media file: its extension is not `srt`, and in lower case it is one
/// of `exts`.
pub open spec fn is_media_path(p: Seq<char>, exts: Seq<Seq<char>>) -> bool {
    extension(p) matches Some(e) && !is_srt_ignoring_case(e) && exts.contains(unicode_lowercase(e))
}

/// The subtitle paths among `paths`, in order.
pub open spec fn subtitle_paths(paths: Seq<Seq<char>>) -> Seq<Seq<char>>
    decreases paths.len(),
{
    if paths.len() == 0 {
        Seq::<Seq<char>>::empty()
    } else if is_subtitle_path(paths.last()) {
        subtitle_paths(paths.drop_last()).push(paths.last())
    } else {
        subtitle_paths(paths.drop_last())
    }
}

/// The media file `p`, with its `.srt` sibling where `srts` holds it.
pub open spec fn media_entry(p: Seq<char>, srts: Seq<Seq<char>>) -> MediaFileView {
    MediaFileView {
        media: p,
        subtitles: if srts.contains(with_srt_extension(p)) { Some(with_srt_extension(p)) } else { None },
    }
}

/// The media files among `paths`, in order, each paired by `srts`.
pub open spec fn media_entries(paths: Seq<Seq<char>>, exts: Seq<Seq<char>>, srts: Seq<Seq<char>>) -> Seq<MediaFileView>
    decreases paths.len(),
{
    if paths.len() == 0 {
        Seq::<MediaFileView>::empty()
    } else if is_media_path(paths.last(), exts) {
        media_entries(paths.drop_last(), exts, srts).push(media_entry(paths.last(), srts))
    } else {
        media_entries(paths.drop_last(), exts, srts)
    }
}

/// The media files that a walk over `paths` finds: every media path in walk order,
/// paired with the `.srt` file of the same stem where the walk found that one.
pub open spec fn spec_media_files(paths: Seq<Seq<char>>, exts: Seq<Seq<char>>) -> Seq<MediaFileView> {
    media_entries(paths, exts, subtitle_paths(paths))
}

/// Where `c` stands at `j` and nowhere after it, the last `c` is at `j`.
proof fn lemma_last_index_at(s: Seq<char>, c: char, j: int)
    requires
        0 <= j < s.len(),
        s[j] == c,
        forall|i: int| j < i < s.len() ==> s[i] != c,
    ensures
        last_index_of(s, c) == j,
    decreases s.len(),
{
    if j != s.len() - 1 {
        assert(s.last() != c);
        lemma_last_index_at(s.drop_last(), c, j);
    }
}

/// Where `c` stands nowhere from `m` on, the last `c` stands before `m`.
proof fn lemma_last_index_before(s: Seq<char>, c: char, m: int)
    requires
        0 <= m,
        forall|i: int| m <= i < s.len() ==> s[i] != c,
    ensures
        last_index_of(s, c) < m,
    decreases s.len(),
{
    if s.len() > m {
        assert(s.last() != c);
        lemma_last_index_before(s.drop_last(), c, m);
    } else {
        lemma_last_index_bounds(s, c);
    }
}

/// Where the dot of a path's extension stands at `d` (not first in the file name, and
/// followed by no `.` or `/`), the file name starts before it, and the dot is the last
/// `.` of the file name.
proof fn lemma_extension_dot(p: Seq<char>, d: int)
    requires
        0 < d < p.len(),
        p[d] == '.',
        p[d - 1] != '/',
        forall|i: int| d < i < p.len() ==> p[i] != '.' && p[i] != '/',
    ensures
        0 <= name_start(p) < d,
        last_index_of(file_name(p), '.') == d - name_start(p),
{
    lemma_last_index_before(p, '/', d - 1);
    lemma_last_index_bounds(p, '/');
    let ns = name_start(p);
    let name = file_name(p);
    assert forall|i: int| d - ns < i < name.len() implies name[i] != '.' by {
        assert(name[i] == p[ns + i]);
    }
    assert(name[d - ns] == p[d]);
    lemma_last_index_at(name, '.', d - ns);
}

/// The `.srt` sibling of a media path keeps the path character for character up to the
/// dot of its extension, then `.srt`: where that dot stands at `d` (not first in the
/// file name, and followed by no `.` or `/`), the sibling is `p[..d]` and `.srt`.
pub proof fn lemma_srt_sibling_keeps_stem(p: Seq<char>, d: int)
    requires
        0 < d < p.len(),
        p[d] == '.',
        p[d - 1] != '/',
        forall|i: int| d < i < p.len() ==> p[i] != '.' && p[i] != '/',
    ensures
        with_srt_extension(p) == p.take(d) + seq!['.', 's', 'r', 't'],
{
    lemma_extension_dot(p, d);
}

/// A walk that finds a media path `p` and the path that keeps `p` up to the dot of its
/// extension and then has `.srt` pairs `p` with exactly that second path.
pub proof fn lemma_media_paired_with_sibling(p: Seq<char>, d: int, exts: Seq<Seq<char>>)
    requires
        0 < d < p.len(),
        p[d] == '.',
        p[d - 1] != '/',
        forall|i: int| d < i < p.len() ==> p[i] != '.' && p[i] != '/',
        is_media_path(p, exts),
    ensures
        spec_media_files(seq![p, p.take(d) + seq!['.', 's', 'r', 't']], exts)
            == seq![MediaFileView { media: p, subtitles: Some(p.take(d) + seq!['.', 's', 'r', 't']) }],
{
    let q = p.take(d) + seq!['.', 's', 'r', 't'];
    lemma_srt_sibling_keeps_stem(p, d);
    // The sibling is a subtitle path.
    assert forall|i: int| d - 1 <= i < q.len() implies q[i] != '/' by {
        if i < d {
            assert(q[i] == p[i]);
        }
    }
    lemma_last_index_before(q, '/', d - 1);
    lemma_last_index_bounds(q, '/');
    let ns = name_start(q);
    let name = file_name(q);
    assert forall|i: int| d - ns < i < name.len() implies name[i] != '.' by {
        assert(name[i] == q[ns + i]);
    }
    assert(name[d - ns] == q[d]);
    lemma_last_index_at(name, '.', d - ns);
    assert(name.skip(d - ns + 1) =~= seq!['s', 'r', 't']);
    assert(name.len() >= 5);
    assert(extension(q) == Some(seq!['s', 'r', 't']));
    assert(is_subtitle_path(q));
    assert(!is_subtitle_path(p));
    // The walk: `q` is its one subtitle path, and `p` its one media path.
    let walk = seq![p, q];
    assert(walk.drop_last() =~= seq![p]);
    assert(seq![p].drop_last() =~= Seq::<Seq<char>>::empty());
    assert(seq![p].last() == p);
    assert(walk.last() == q);
    assert(subtitle_paths(seq![p].drop_last()) =~= Seq::<Seq<char>>::empty());
    assert(subtitle_paths(seq![p]) =~= Seq::<Seq<char>>::empty());
    let srts = subtitle_paths(walk);
    assert(srts =~= seq![q]);
    assert(srts[0] == q);
    assert(media_entries(seq![p].drop_last(), exts, srts) =~= Seq::<MediaFileView>::empty());
    assert(media_entries(seq![p], exts, srts) =~= Seq::<MediaFileView>::empty().push(media_entry(p, srts)));
    assert(!is_media_path(q, exts));
    assert(media_entries(walk, exts, srts) == media_entries(seq![p], exts, srts));
    assert(media_entry(p, srts) == MediaFileView { media: p, subtitles: Some(q) });
}

/// The texts of a sequence of strings.
pub open spec fn string_views(v: Seq<String>) -> Seq<Seq<char>> {
    v.map_values(|s: String| s@)
}

/// The values of a sequence of media files.
pub open spec fn media_views(v: Seq<MediaFile>) -> Seq<MediaFileView> {
    v.map_values(|m: MediaFile| m@)
}

/// The index of the last `c` in `s`, if there is one.
fn last_index_of_exec(s: &Vec<char>, c: char) -> (res: Option<usize>)
    ensures
        match res {
            Some(k) => k == last_index_of(s@, c),
            None => last_index_of(s@, c) == -1,
        },
{
    let mut k: usize = s.len();
    assert(s@.take(k as int) =~= s@);
    while k > 0
        invariant
            k <= s.len(),
            last_index_of(s@, c) == last_index_of(s@.take(k as int), c),
        decreases k,
    {
        let ghost t = s@.take(k as int);
        if s[k - 1] == c {
            assert(t.last() == c);
            return Some(k - 1);
        }
        assert(t.drop_last() =~= s@.take(k - 1));
        k -= 1;
    }
    None
}

/// Where the file name of a path starts.
fn name_start_exec(p: &Vec<char>) -> (res: usize)
    ensures
        res == name_start(p@),
        res <= p.len(),
{
    proof {
        lemma_last_index_bounds(p@, '/');
    }
    let n = p.len();
    match last_index_of_exec(p, '/') {
        Some(k) => {
            assert(k < n);
            k + 1
        },
        None => 0,
    }
}

/// Two character sequences are equal.
fn chars_equal(a: &Vec<char>, b: &Vec<char>) -> (res: bool)
    ensures
        res == (a@ == b@),
{
    if a.len() != b.len() {
        return false;
    }
    let mut i: usize = 0;
    while i < a.len()
        invariant
            a.len() == b.len(),
            i <= a.len(),
            forall|j: int| 0 <= j < i ==> a@[j] == b@[j],
        decreases a.len() - i,
    {
        if a[i] != b[i] {
            return false;
        }
        i += 1;
    }
    assert(a@ =~= b@);
    true
}

/// `items` holds `x`.
fn contains_chars(items: &Vec<Vec<char>>, x: &Vec<char>) -> (res: bool)
    ensures
        res == items@.map_values(|v: Vec<char>| v@).contains(x@),
{
    let ghost vs = items@.map_values(|v: Vec<char>| v@);
    let mut i: usize = 0;
    while i < items.len()
        invariant
            i <= items.len(),
            vs == items@.map_values(|v: Vec<char>| v@),
            forall|j: int| 0 <= j < i ==> vs[j] != x@,
        decreases items.len() - i,
    {
        if chars_equal(&items[i], x) {
            assert(vs[i as int] == x@);
            return true;
        }
        i += 1;
    }
    false
}

/// The extension of a path, as characters.
fn extension_chars(p: &Vec<char>) -> (res: Option<Vec<char>>)
    ensures
        match extension(p@) {
            Some(e) => res matches Some(r) && r@ == e,
            None => res is None,
        },
{
    let start = name_start_exec(p);
    let name = sub_chars(p, start, p.len());
    assert(name@ =~= file_name(p@));
    proof {
        lemma_last_index_bounds(name@, '.');
    }
    let dot: usize = match last_index_of_exec(&name, '.') {
        Some(k) => k,
        None => 0,
    };
    if (name.len() == 2 && name[0] == '.' && name[1] == '.') || dot == 0 {
        proof {
            if name.len() == 2 && name[0] == '.' && name[1] == '.' {
                assert(name@ =~= seq!['.', '.']);
            }
        }
        None
    } else {
        proof {
            if name@ == seq!['.', '.'] {
                assert(name@[0] == '.' && name@[1] == '.');
            }
        }
        let e = sub_chars(&name, dot + 1, name.len());
        assert(e@ =~= name@.skip(dot + 1));
        Some(e)
    }
}

/// The path with its extension replaced by `srt`.
fn with_srt_extension_chars(p: &Vec<char>) -> (res: Vec<char>)
    ensures
        res@ == with_srt_extension(p@),
{
    let start = name_start_exec(p);
    let name = sub_chars(p, start, p.len());
    assert(name@ =~= file_name(p@));
    proof {
        lemma_last_index_bounds(name@, '.');
    }
    let dot: usize = match last_index_of_exec(&name, '.') {
        Some(k) => k,
        None => 0,
    };
    let stem_end: usize = if dot > 0 { start + dot } else { p.len() };
    let mut res = sub_chars(p, 0, stem_end);
    res.push('.');
    res.push('s');
    res.push('r');
    res.push('t');
    assert(res@ =~= with_srt_extension(p@));
    res
}

/// `c` with ASCII upper case letters made lower case.
fn ascii_lower_exec(c: char) -> (res: char)
    ensures
        res == ascii_lower(c),
{
    if 'A' <= c && c <= 'Z' {
        if c == 'A' { 'a' } else if c == 'B' { 'b' } else if c == 'C' { 'c' } else if c == 'D' { 'd' }
        else if c == 'E' { 'e' } else if c == 'F' { 'f' } else if c == 'G' { 'g' } else if c == 'H' { 'h' }
        else if c == 'I' { 'i' } else if c == 'J' { 'j' } else if c == 'K' { 'k' } else if c == 'L' { 'l' }
        else if c == 'M' { 'm' } else if c == 'N' { 'n' } else if c == 'O' { 'o' } else if c == 'P' { 'p' }
        else if c == 'Q' { 'q' } else if c == 'R' { 'r' } else if c == 'S' { 's' } else if c == 'T' { 't' }
        else if c == 'U' { 'u' } else if c == 'V' { 'v' } else if c == 'W' { 'w' } else if c == 'X' { 'x' }
        else if c == 'Y' { 'y' } else { 'z' }
    } else {
        c
    }
}

/// Whether `e` is `srt` in any ASCII case.
fn is_srt_ignoring_case_exec(e: &Vec<char>) -> (res: bool)
    ensures
        res == is_srt_ignoring_case(e@),
{
    e.len() == 3 && ascii_lower_exec(e[0]) == 's' && ascii_lower_exec(e[1]) == 'r' && ascii_lower_exec(e[2]) == 't'
}

/// Sorts the files found by a directory walk: every path whose extension is `srt` in
/// any ASCII case is a subtitle file; every other path whose extension, in lower case,
/// is one of `exts` is a media file. Gives the media files in walk order, each with the
/// path that has its stem and the extension `srt` where the walk found that path as a
/// subtitle file.
pub fn collect_media_files(paths: &Vec<String>, exts: &Vec<String>) -> (res: Vec<MediaFile>)
    ensures
        media_views(res@) == spec_media_files(string_views(paths@), string_views(exts@)),
{
    let ghost ps = string_views(paths@);
    let ghost es = string_views(exts@);
    let mut ext_chars: Vec<Vec<char>> = Vec::new();
    let mut j: usize = 0;
    while j < exts.len()
        invariant
            j <= exts.len(),
            es == string_views(exts@),
            ext_chars@.map_values(|v: Vec<char>| v@) == es.take(j as int),
        decreases exts.len() - j,
    {
        let c = chars_of(exts[j].as_str());
        assert(es[j as int] == c@);
        let ghost before = ext_chars@;
        ext_chars.push(c);
        assert(ext_chars@ == before.push(c));
        assert(ext_chars@.map_values(|v: Vec<char>| v@) =~= before.map_values(|v: Vec<char>| v@).push(c@));
        assert(es.take(j + 1) =~= es.take(j as int).push(es[j as int]));
        j += 1;
        assert(ext_chars@.map_values(|v: Vec<char>| v@) =~= es.take(j as int));
    }
    assert(es.take(j as int) =~= es);

    // first the subtitle files
    let mut path_chars: Vec<Vec<char>> = Vec::new();
    let mut srts: Vec<Vec<char>> = Vec::new();
    let mut i: usize = 0;
    assert(ps.take(0) =~= Seq::<Seq<char>>::empty());
    while i < paths.len()
        invariant
            i <= paths.len(),
            ps == string_views(paths@),
            path_chars@.map_values(|v: Vec<char>| v@) == ps.take(i as int),
            srts@.map_values(|v: Vec<char>| v@) == subtitle_paths(ps.take(i as int)),
        decreases paths.len() - i,
    {
        let p = chars_of(paths[i].as_str());
        let ghost prefix = ps.take(i as int);
        let ghost next = ps.take(i + 1);
        assert(next.drop_last() =~= prefix);
        assert(next.last() == p@);
        let is_srt = match extension_chars(&p) {
            Some(e) => is_srt_ignoring_case_exec(&e),
            None => false,
        };
        if is_srt {
            let q = sub_chars(&p, 0, p.len());
            assert(q@ =~= p@);
            srts.push(q);
        }
        path_chars.push(p);
        i += 1;
        assert(path_chars@.map_values(|v: Vec<char>| v@) =~= ps.take(i as int));
        assert(srts@.map_values(|v: Vec<char>| v@) =~= subtitle_paths(ps.take(i as int)));
    }
    assert(ps.take(i as int) =~= ps);
    let ghost all_srts = subtitle_paths(ps);

    // then the media files, each with its sibling
    let mut res: Vec<MediaFile> = Vec::new();
    let mut k: usize = 0;
    while k < path_chars.len()
        invariant
            k <= path_chars.len() == paths.len(),
            ps == string_views(paths@),
            path_chars@.map_values(|v: Vec<char>| v@) == ps,
            srts@.map_values(|v: Vec<char>| v@) == all_srts,
            ext_chars@.map_values(|v: Vec<char>| v@) == es,
            media_views(res@) == media_entries(ps.take(k as int), es, all_srts),
        decreases path_chars.len() - k,
    {
        let p = &path_chars[k];
        let ghost prefix = ps.take(k as int);
        let ghost next = ps.take(k + 1);
        assert(next.drop_last() =~= prefix);
        assert(p@ == ps[k as int]);
        assert(next.last() == p@);
        assert(paths@[k as int]@ == p@);
        let media = match extension_chars(p) {
            Some(e) => {
                if is_srt_ignoring_case_exec(&e) {
                    false
                } else {
                    let lower = lowercase(string_from_chars(&e).as_str());
                    let lc = chars_of(lower.as_str());
                    contains_chars(&ext_chars, &lc)
                }
            },
            None => false,
        };
        if media {
            let sibling = with_srt_extension_chars(p);
            let subtitles = if contains_chars(&srts, &sibling) {
                Some(string_from_chars(&sibling))
            } else {
                None
            };
            let entry = MediaFile { media: string_from_chars(p), subtitles };
            let ghost before = media_views(res@);
            res.push(entry);
            assert(media_views(res@) =~= before.push(entry@));
        }
        k += 1;
    }
    assert(ps.take(k as int) =~= ps);
    res
}

/// The media entries of `paths` are the media paths among them, in order, each paired
/// with nothing or with its `.srt` sibling from `srts`.
proof fn lemma_media_entries(paths: Seq<Seq<char>>, exts: Seq<Seq<char>>, srts: Seq<Seq<char>>)
    ensures
        media_entries(paths, exts, srts).map_values(|m: MediaFileView| m.media)
            == paths.filter(|p: Seq<char>| is_media_path(p, exts)),
        forall|i: int| 0 <= i < media_entries(paths, exts, srts).len() ==> {
            let m = #[trigger] media_entries(paths, exts, srts)[i];
            &&& is_media_path(m.media, exts)
            &&& m.subtitles matches Some(s) ==> s == with_srt_extension(m.media) && srts.contains(s)
        },
    decreases paths.len(),
{
    reveal_with_fuel(Seq::filter, 1);
    if paths.len() > 0 {
        lemma_media_entries(paths.drop_last(), exts, srts);
        let init = media_entries(paths.drop_last(), exts, srts);
        if is_media_path(paths.last(), exts) {
            let e = media_entry(paths.last(), srts);
            assert(init.push(e).map_values(|m: MediaFileView| m.media)
                =~= init.map_values(|m: MediaFileView| m.media).push(paths.last()));
            assert forall|i: int| 0 <= i < init.push(e).len() implies {
                let m = #[trigger] init.push(e)[i];
                &&& is_media_path(m.media, exts)
                &&& m.subtitles matches Some(s) ==> s == with_srt_extension(m.media) && srts.contains(s)
            } by {
                if i < init.len() {
                    assert(init.push(e)[i] == init[i]);
                }
            }
        }
    }
}

/// The subtitle paths of a walk are the paths that are subtitle files, in order.
proof fn lemma_subtitle_paths(paths: Seq<Seq<char>>)
    ensures
        subtitle_paths(paths) == paths.filter(|p: Seq<char>| is_subtitle_path(p)),
    decreases paths.len(),
{
    reveal_with_fuel(Seq::filter, 1);
    if paths.len() > 0 {
        lemma_subtitle_paths(paths.drop_last());
    }
}

/// What a directory walk yields: the media files are exactly the walk's media paths,
/// in walk order; none of them is a subtitle file; and the subtitle file paired with a
/// media file is its `.srt` sibling, found by the walk as a subtitle file.
pub proof fn lemma_media_files(paths: Seq<Seq<char>>, exts: Seq<Seq<char>>)
    ensures
        spec_media_files(paths, exts).map_values(|m: MediaFileView| m.media)
            == paths.filter(|p: Seq<char>| is_media_path(p, exts)),
        forall|i: int| 0 <= i < spec_media_files(paths, exts).len() ==> {
            let m = #[trigger] spec_media_files(paths, exts)[i];
            &&& !is_subtitle_path(m.media)
            &&& m.subtitles matches Some(s) ==> s == with_srt_extension(m.media) && paths.contains(s)
                && is_subtitle_path(s)
        },
{
    let srts = subtitle_paths(paths);
    lemma_media_entries(paths, exts, srts);
    lemma_subtitle_paths(paths);
    let pred = |p: Seq<char>| is_subtitle_path(p);
    #[allow(deprecated)]
    paths.filter_lemma(pred);
    assert forall|s: Seq<char>| srts.contains(s) implies paths.contains(s) && is_subtitle_path(s) by {
        let k = choose|k: int| 0 <= k < srts.len() && srts[k] == s;
        assert(pred(paths.filter(pred)[k]));
        paths.lemma_filter_contains_rev(pred, s);
    }
}

} // verus!
