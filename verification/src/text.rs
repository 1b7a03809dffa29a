//! Character-sequence operations with the meaning of `str`'s `split`, `join`,
//! `replace` and `trim`, stated over `Seq<char>` and carried out on `Vec<char>`.
use vstd::prelude::*;

verus! {

/// `sep` occurs in `s` starting at index `i`.
pub open spec fn occurs_at(s: Seq<char>, sep: Seq<char>, i: int) -> bool {
    0 <= i && i + sep.len() <= s.len() && s.subrange(i, i + sep.len()) == sep
}

/// The pieces of `s` between the leftmost non-overlapping occurrences of `sep`,
/// scanning from the front, as `str::split` with a non-empty pattern yields them.
pub open spec fn split_on(s: Seq<char>, sep: Seq<char>) -> Seq<Seq<char>>
    decreases s.len(),
{
    if s.len() == 0 {
        seq![Seq::<char>::empty()]
    } else if sep.len() > 0 && occurs_at(s, sep, 0) {
        seq![Seq::<char>::empty()] + split_on(s.skip(sep.len() as int), sep)
    } else {
        let rest = split_on(s.skip(1), sep);
        rest.update(0, seq![s[0]] + rest[0])
    }
}

/// Splitting always yields at least one piece.
pub proof fn lemma_split_nonempty(s: Seq<char>, sep: Seq<char>)
    ensures
        split_on(s, sep).len() >= 1,
    decreases s.len(),
{
    if s.len() == 0 {
    } else if sep.len() > 0 && occurs_at(s, sep, 0) {
        lemma_split_nonempty(s.skip(sep.len() as int), sep);
    } else {
        lemma_split_nonempty(s.skip(1), sep);
    }
}

/// The character sequences held by a vector of character vectors.
pub open spec fn views(v: Seq<Vec<char>>) -> Seq<Seq<char>> {
    v.map_values(|p: Vec<char>| p@)
}

/// Exec check that `sep` occurs in `s` at `i`.
pub fn occurs_at_exec(s: &Vec<char>, sep: &Vec<char>, i: usize) -> (res: bool)
    ensures
        res == occurs_at(s@, sep@, i as int),
{
    if i > s.len() || sep.len() > s.len() - i {
        return false;
    }
    let mut j: usize = 0;
    while j < sep.len()
        invariant
            i + sep.len() <= s.len(),
            j <= sep.len(),
            forall|k: int| 0 <= k < j ==> s@[i + k] == sep@[k],
        decreases sep.len() - j,
    {
        if s[i + j] != sep[j] {
            assert(s@.subrange(i as int, i + sep.len())[j as int] != sep@[j as int]);
            return false;
        }
        j += 1;
    }
    assert(s@.subrange(i as int, i + sep.len()) =~= sep@);
    true
}

/// Splits `s` at every leftmost non-overlapping occurrence of `sep`.
pub fn split_chars(s: &Vec<char>, sep: &Vec<char>) -> (res: Vec<Vec<char>>)
    requires
        sep.len() > 0,
    ensures
        views(res@) == split_on(s@, sep@),
{
    let n = s.len();
    let m = sep.len();
    let mut pieces: Vec<Vec<char>> = Vec::new();
    let mut cur: Vec<char> = Vec::new();
    let mut i: usize = 0;
    assert(s@.skip(0) =~= s@);
    proof {
        lemma_split_nonempty(s@, sep@);
        assert(views(pieces@) + seq![cur@ + split_on(s@, sep@)[0]] + split_on(s@, sep@).drop_first()
            =~= split_on(s@, sep@));
    }
    while i < n
        invariant
            n == s.len(),
            m == sep.len(),
            m > 0,
            i <= n,
            split_on(s@, sep@) == views(pieces@) + seq![cur@ + split_on(s@.skip(i as int), sep@)[0]]
                + split_on(s@.skip(i as int), sep@).drop_first(),
        decreases n - i,
    {
        let ghost t = s@.skip(i as int);
        let ghost old_pieces = views(pieces@);
        let ghost old_cur = cur@;
        if occurs_at_exec(s, sep, i) {
            let ghost r = split_on(s@.skip(i + m), sep@);
            assert(occurs_at(t, sep@, 0)) by {
                assert(t.subrange(0, m as int) =~= s@.subrange(i as int, i + m));
            }
            assert(t.skip(m as int) =~= s@.skip(i + m));
            assert(split_on(t, sep@) == seq![Seq::<char>::empty()] + r);
            let done = cur;
            pieces.push(done);
            cur = Vec::new();
            i = i + m;
            proof {
                lemma_split_nonempty(s@.skip(i as int), sep@);
                assert(views(pieces@) =~= old_pieces.push(old_cur));
                assert(split_on(t, sep@)[0] =~= Seq::<char>::empty());
                assert(split_on(t, sep@).drop_first() =~= r);
                assert(old_cur + Seq::<char>::empty() =~= old_cur);
                assert(cur@ + r[0] =~= r[0]);
                assert(views(pieces@) + seq![cur@ + r[0]] + r.drop_first()
                    =~= old_pieces + seq![old_cur + split_on(t, sep@)[0]] + split_on(t, sep@).drop_first());
            }
        } else {
            let ghost r = split_on(s@.skip(i + 1), sep@);
            assert(!occurs_at(t, sep@, 0)) by {
                if occurs_at(t, sep@, 0) {
                    assert(t.subrange(0, m as int) =~= s@.subrange(i as int, i + m));
                }
            }
            assert(t.skip(1) =~= s@.skip(i + 1));
            proof {
                lemma_split_nonempty(s@.skip(i + 1), sep@);
            }
            assert(split_on(t, sep@) == r.update(0, seq![t[0]] + r[0]));
            cur.push(s[i]);
            i = i + 1;
            proof {
                assert(cur@ + r[0] =~= old_cur + (seq![t[0]] + r[0]));
                assert(r.update(0, seq![t[0]] + r[0]).drop_first() =~= r.drop_first());
            }
        }
    }
    proof {
        assert(s@.skip(n as int) =~= Seq::<char>::empty());
        assert(cur@ + Seq::<char>::empty() =~= cur@);
    }
    let ghost before = views(pieces@);
    pieces.push(cur);
    proof {
        assert(views(pieces@) =~= before + seq![cur@]);
    }
    pieces
}

/// `parts` joined with `sep` between neighbours, as `[&str]::join` builds it.
pub open spec fn join_with(parts: Seq<Seq<char>>, sep: Seq<char>) -> Seq<char>
    decreases parts.len(),
{
    if parts.len() == 0 {
        Seq::<char>::empty()
    } else if parts.len() == 1 {
        parts[0]
    } else {
        join_with(parts.drop_last(), sep) + sep + parts.last()
    }
}

/// Every leftmost non-overlapping occurrence of `from` in `s` replaced by `to`,
/// as `str::replace` with a non-empty pattern does it.
pub open spec fn replace_all(s: Seq<char>, from: Seq<char>, to: Seq<char>) -> Seq<char> {
    join_with(split_on(s, from), to)
}

/// Joining unfolds from the front as well.
pub proof fn lemma_join_front(parts: Seq<Seq<char>>, sep: Seq<char>)
    requires
        parts.len() >= 2,
    ensures
        join_with(parts, sep) == parts[0] + sep + join_with(parts.drop_first(), sep),
    decreases parts.len(),
{
    if parts.len() == 2 {
        assert(parts.drop_first().len() == 1);
        assert(parts.drop_last().len() == 1);
        assert(parts.drop_last()[0] == parts[0]);
        assert(parts.drop_first()[0] == parts[1]);
        assert(join_with(parts.drop_first(), sep) == parts[1]);
        assert(join_with(parts.drop_last(), sep) == parts[0]);
        assert(join_with(parts, sep) == join_with(parts.drop_last(), sep) + sep + parts.last());
    } else {
        let dl = parts.drop_last();
        let df = parts.drop_first();
        lemma_join_front(dl, sep);
        assert(dl.drop_first() =~= df.drop_last());
        let j = join_with(df.drop_last(), sep);
        assert(join_with(dl, sep) == dl[0] + sep + j);
        assert(dl[0] == parts[0]);
        assert(df.last() == parts.last());
        assert(join_with(parts, sep) == join_with(dl, sep) + sep + parts.last());
        assert(join_with(df, sep) == j + sep + df.last());
        assert(parts[0] + sep + j + sep + parts.last() =~= parts[0] + sep + (j + sep + parts.last()));
    }
}

/// Joining the pieces of a split with the same separator gives the text back.
pub proof fn lemma_join_split(s: Seq<char>, sep: Seq<char>)
    requires
        sep.len() > 0,
    ensures
        join_with(split_on(s, sep), sep) == s,
    decreases s.len(),
{
    if s.len() == 0 {
    } else if occurs_at(s, sep, 0) {
        let rest = s.skip(sep.len() as int);
        lemma_join_split(rest, sep);
        lemma_split_nonempty(rest, sep);
        let parts = seq![Seq::<char>::empty()] + split_on(rest, sep);
        lemma_join_front(parts, sep);
        assert(parts.drop_first() =~= split_on(rest, sep));
        assert(s.subrange(0, sep.len() as int) == sep);
        assert(Seq::<char>::empty() + sep + rest =~= s);
    } else {
        let rest = s.skip(1);
        lemma_join_split(rest, sep);
        lemma_split_nonempty(rest, sep);
        let r = split_on(rest, sep);
        let parts = r.update(0, seq![s[0]] + r[0]);
        if r.len() == 1 {
            assert(seq![s[0]] + rest =~= s);
        } else {
            lemma_join_front(parts, sep);
            lemma_join_front(r, sep);
            assert(parts.drop_first() =~= r.drop_first());
            assert(seq![s[0]] + r[0] + sep + join_with(r.drop_first(), sep)
                =~= seq![s[0]] + (r[0] + sep + join_with(r.drop_first(), sep)));
            assert(seq![s[0]] + rest =~= s);
        }
    }
}

/// Where `s` is `a`, then `sep`, then `b`, and `sep` occurs nowhere in `s` before the
/// end of `a`, the first piece is `a` and the rest are the pieces of `b`.
pub proof fn lemma_split_first(a: Seq<char>, sep: Seq<char>, b: Seq<char>)
    requires
        sep.len() > 0,
        forall|p: int| 0 <= p < a.len() ==> !occurs_at(a + sep + b, sep, p),
    ensures
        split_on(a + sep + b, sep) == seq![a] + split_on(b, sep),
    decreases a.len(),
{
    let s = a + sep + b;
    if a.len() == 0 {
        assert(s.subrange(0, sep.len() as int) =~= sep);
        assert(s.skip(sep.len() as int) =~= b);
        assert(a =~= Seq::<char>::empty());
    } else {
        assert(!occurs_at(s, sep, 0));
        let a1 = a.skip(1);
        assert(s.skip(1) =~= a1 + sep + b);
        assert forall|p: int| 0 <= p < a1.len() implies !occurs_at(a1 + sep + b, sep, p) by {
            assert(!occurs_at(s, sep, p + 1));
            if occurs_at(a1 + sep + b, sep, p) {
                assert((a1 + sep + b).subrange(p, p + sep.len()) =~= s.subrange(p + 1, p + 1 + sep.len()));
            }
        }
        lemma_split_first(a1, sep, b);
        lemma_split_nonempty(b, sep);
        let r = split_on(s.skip(1), sep);
        assert(r == seq![a1] + split_on(b, sep));
        assert(seq![s[0]] + a1 =~= a);
        assert(r.update(0, seq![s[0]] + r[0]) =~= seq![a] + split_on(b, sep));
    }
}

/// Where `sep` occurs nowhere in `s`, splitting gives `s` alone.
pub proof fn lemma_split_absent(s: Seq<char>, sep: Seq<char>)
    requires
        sep.len() > 0,
        forall|p: int| 0 <= p < s.len() ==> !occurs_at(s, sep, p),
    ensures
        split_on(s, sep) == seq![s],
    decreases s.len(),
{
    if s.len() == 0 {
        assert(s =~= Seq::<char>::empty());
    } else {
        assert(!occurs_at(s, sep, 0));
        let s1 = s.skip(1);
        assert forall|p: int| 0 <= p < s1.len() implies !occurs_at(s1, sep, p) by {
            assert(!occurs_at(s, sep, p + 1));
            if occurs_at(s1, sep, p) {
                assert(s1.subrange(p, p + sep.len()) =~= s.subrange(p + 1, p + 1 + sep.len()));
            }
        }
        lemma_split_absent(s1, sep);
        assert(seq![s[0]] + s1 =~= s);
        assert(split_on(s1, sep).update(0, seq![s[0]] + s1) =~= seq![s]);
    }
}

/// A one-character separator occurs only where its character stands.
pub proof fn lemma_occurs_single(s: Seq<char>, c: char, p: int)
    requires
        occurs_at(s, seq![c], p),
    ensures
        0 <= p < s.len(),
        s[p] == c,
{
    assert(s.subrange(p, p + 1)[0] == s[p]);
}

/// Where no part holds the first character of `sep`, splitting the parts joined with
/// `sep` gives the parts back.
pub proof fn lemma_split_join(parts: Seq<Seq<char>>, sep: Seq<char>)
    requires
        sep.len() > 0,
        parts.len() >= 1,
        forall|k: int, i: int| 0 <= k < parts.len() && 0 <= i < parts[k].len() ==> #[trigger] parts[k][i] != sep[0],
    ensures
        split_on(join_with(parts, sep), sep) == parts,
    decreases parts.len(),
{
    if parts.len() == 1 {
        let s = parts[0];
        assert forall|p: int| 0 <= p < s.len() implies !occurs_at(s, sep, p) by {
            if occurs_at(s, sep, p) {
                assert(s.subrange(p, p + sep.len())[0] == s[p]);
                assert(parts[0][p] != sep[0]);
            }
        }
        lemma_split_absent(s, sep);
        assert(split_on(s, sep) =~= parts);
    } else {
        let a = parts[0];
        let rest = parts.drop_first();
        lemma_join_front(parts, sep);
        let b = join_with(rest, sep);
        let s = a + sep + b;
        assert forall|p: int| 0 <= p < a.len() implies !occurs_at(s, sep, p) by {
            if occurs_at(s, sep, p) {
                assert(s.subrange(p, p + sep.len())[0] == s[p]);
                assert(s[p] == a[p]);
                assert(parts[0][p] != sep[0]);
            }
        }
        lemma_split_first(a, sep, b);
        assert forall|k: int, i: int| 0 <= k < rest.len() && 0 <= i < rest[k].len() implies #[trigger] rest[k][i] != sep[0] by {
            assert(rest[k] == parts[k + 1]);
        }
        lemma_split_join(rest, sep);
        assert(seq![a] + rest =~= parts);
    }
}

/// Where no field holds `c`, the fields joined with `c`, then `c` and any text `t`,
/// split on `c` into the fields followed by the pieces of `t`.
pub proof fn lemma_split_fields_then(fields: Seq<Seq<char>>, c: char, t: Seq<char>)
    requires
        fields.len() >= 1,
        forall|k: int, i: int| 0 <= k < fields.len() && 0 <= i < fields[k].len() ==> #[trigger] fields[k][i] != c,
    ensures
        split_on(join_with(fields, seq![c]) + seq![c] + t, seq![c]) == fields + split_on(t, seq![c]),
    decreases fields.len(),
{
    let sep = seq![c];
    let a = fields[0];
    if fields.len() == 1 {
        let s = a + sep + t;
        assert forall|p: int| 0 <= p < a.len() implies !occurs_at(s, sep, p) by {
            if occurs_at(s, sep, p) {
                lemma_occurs_single(s, c, p);
                assert(s[p] == a[p]);
                assert(fields[0][p] != c);
            }
        }
        lemma_split_first(a, sep, t);
        assert(seq![a] =~= fields);
    } else {
        let rest = fields.drop_first();
        lemma_join_front(fields, sep);
        let b = join_with(rest, sep) + sep + t;
        let s = a + sep + b;
        assert(join_with(fields, sep) + sep + t =~= s);
        assert forall|p: int| 0 <= p < a.len() implies !occurs_at(s, sep, p) by {
            if occurs_at(s, sep, p) {
                lemma_occurs_single(s, c, p);
                assert(s[p] == a[p]);
                assert(fields[0][p] != c);
            }
        }
        lemma_split_first(a, sep, b);
        assert forall|k: int, i: int| 0 <= k < rest.len() && 0 <= i < rest[k].len() implies #[trigger] rest[k][i] != c by {
            assert(rest[k] == fields[k + 1]);
        }
        lemma_split_fields_then(rest, c, t);
        assert(seq![a] + (rest + split_on(t, sep)) =~= fields + split_on(t, sep));
    }
}

/// Where neither the parts nor `sep` hold `c`, neither does their join.
pub proof fn lemma_join_lacks(parts: Seq<Seq<char>>, sep: Seq<char>, c: char)
    requires
        forall|k: int, i: int| 0 <= k < parts.len() && 0 <= i < parts[k].len() ==> #[trigger] parts[k][i] != c,
        forall|i: int| 0 <= i < sep.len() ==> #[trigger] sep[i] != c,
    ensures
        forall|i: int| 0 <= i < join_with(parts, sep).len() ==> #[trigger] join_with(parts, sep)[i] != c,
    decreases parts.len(),
{
    if parts.len() == 1 {
        assert forall|i: int| 0 <= i < join_with(parts, sep).len() implies #[trigger] join_with(parts, sep)[i] != c by {
            assert(parts[0][i] != c);
        }
    } else if parts.len() >= 2 {
        let init = parts.drop_last();
        assert forall|k: int, i: int| 0 <= k < init.len() && 0 <= i < init[k].len() implies #[trigger] init[k][i] != c by {
            assert(init[k] == parts[k]);
        }
        lemma_join_lacks(init, sep, c);
        let j = join_with(init, sep);
        let last = parts.last();
        assert forall|i: int| 0 <= i < join_with(parts, sep).len() implies #[trigger] join_with(parts, sep)[i] != c by {
            assert(join_with(parts, sep) == j + sep + last);
            if i < j.len() {
                assert(join_with(parts, sep)[i] == j[i]);
            } else if i < j.len() + sep.len() {
                assert(join_with(parts, sep)[i] == sep[i - j.len()]);
            } else {
                assert(join_with(parts, sep)[i] == last[i - j.len() - sep.len()]);
                assert(parts[parts.len() - 1][i - j.len() - sep.len()] != c);
            }
        }
    }
}

/// Appends the characters of `src` to `dst`.
pub fn append_chars(dst: &mut Vec<char>, src: &Vec<char>)
    ensures
        final(dst)@ == old(dst)@ + src@,
{
    let mut i: usize = 0;
    while i < src.len()
        invariant
            i <= src.len(),
            dst@ == old(dst)@ + src@.take(i as int),
        decreases src.len() - i,
    {
        dst.push(src[i]);
        i += 1;
        assert(dst@ =~= old(dst)@ + src@.take(i as int));
    }
    assert(src@.take(i as int) =~= src@);
}

/// Joins `parts[from..]` with `sep` between neighbours.
pub fn join_chars_from(parts: &Vec<Vec<char>>, from: usize, sep: &Vec<char>) -> (res: Vec<char>)
    requires
        from <= parts.len(),
    ensures
        res@ == join_with(views(parts@).skip(from as int), sep@),
{
    let ghost all = views(parts@).skip(from as int);
    let mut res: Vec<char> = Vec::new();
    let mut i: usize = from;
    assert(all.take(0) =~= Seq::<Seq<char>>::empty());
    while i < parts.len()
        invariant
            from <= i <= parts.len(),
            all == views(parts@).skip(from as int),
            res@ == join_with(all.take(i - from), sep@),
        decreases parts.len() - i,
    {
        let ghost prev = all.take(i - from);
        if i > from {
            append_chars(&mut res, sep);
        }
        append_chars(&mut res, &parts[i]);
        i += 1;
        proof {
            let now = all.take(i - from);
            assert(now.drop_last() =~= prev);
            assert(now.last() == parts[i - 1]@);
            if i == from + 1 {
                assert(res@ =~= now[0]);
            }
        }
    }
    assert(all.take(i - from) =~= all);
    res
}

/// Joins `parts` with `sep` between neighbours.
pub fn join_chars(parts: &Vec<Vec<char>>, sep: &Vec<char>) -> (res: Vec<char>)
    ensures
        res@ == join_with(views(parts@), sep@),
{
    assert(views(parts@).skip(0) =~= views(parts@));
    join_chars_from(parts, 0, sep)
}

/// Replaces every leftmost non-overlapping occurrence of `from` in `s` by `to`.
pub fn replace_chars(s: &Vec<char>, from: &Vec<char>, to: &Vec<char>) -> (res: Vec<char>)
    requires
        from.len() > 0,
    ensures
        res@ == replace_all(s@, from@, to@),
{
    let parts = split_chars(s, from);
    join_chars(&parts, to)
}

/// The characters that carry the Unicode `White_Space` property, which is what
/// `char::is_whitespace` tests and what `str::trim` removes.
pub open spec fn is_white_space(c: char) -> bool {
    ||| ('\t' <= c && c <= '\r')
    ||| c == ' '
    ||| c == '\u{85}'
    ||| c == '\u{a0}'
    ||| c == '\u{1680}'
    ||| ('\u{2000}' <= c && c <= '\u{200a}')
    ||| c == '\u{2028}'
    ||| c == '\u{2029}'
    ||| c == '\u{202f}'
    ||| c == '\u{205f}'
    ||| c == '\u{3000}'
}

/// `s` without its leading white space.
pub open spec fn trim_start(s: Seq<char>) -> Seq<char>
    decreases s.len(),
{
    if s.len() > 0 && is_white_space(s[0]) {
        trim_start(s.skip(1))
    } else {
        s
    }
}

/// `s` without its trailing white space.
pub open spec fn trim_end(s: Seq<char>) -> Seq<char>
    decreases s.len(),
{
    if s.len() > 0 && is_white_space(s.last()) {
        trim_end(s.drop_last())
    } else {
        s
    }
}

/// `s` without leading and trailing white space, as `str::trim` gives it.
pub open spec fn trim(s: Seq<char>) -> Seq<char> {
    trim_end(trim_start(s))
}

/// Text that neither starts nor ends with white space is its own trim.
pub proof fn lemma_trim_unchanged(s: Seq<char>)
    requires
        s.len() > 0 ==> !is_white_space(s[0]) && !is_white_space(s.last()),
    ensures
        trim(s) == s,
{
}

/// What is left after leading white space is removed does not start with white space.
proof fn lemma_trim_start_first(s: Seq<char>)
    ensures
        trim_start(s).len() > 0 ==> !is_white_space(trim_start(s)[0]),
    decreases s.len(),
{
    if s.len() > 0 && is_white_space(s[0]) {
        lemma_trim_start_first(s.skip(1));
    }
}

/// Removing trailing white space keeps a prefix, which does not end with white space.
proof fn lemma_trim_end_prefix(s: Seq<char>)
    ensures
        trim_end(s).len() <= s.len(),
        trim_end(s) == s.take(trim_end(s).len() as int),
        trim_end(s).len() > 0 ==> !is_white_space(trim_end(s).last()),
    decreases s.len(),
{
    if s.len() > 0 && is_white_space(s.last()) {
        lemma_trim_end_prefix(s.drop_last());
        assert(s.drop_last().take(trim_end(s).len() as int) =~= s.take(trim_end(s).len() as int));
    } else {
        assert(s.take(s.len() as int) =~= s);
    }
}

/// Trimming twice is trimming once.
pub proof fn lemma_trim_idempotent(s: Seq<char>)
    ensures
        trim(trim(s)) == trim(s),
{
    let x = trim_start(s);
    lemma_trim_start_first(s);
    lemma_trim_end_prefix(x);
    let t = trim(s);
    if t.len() > 0 {
        assert(t[0] == x[0]);
    }
    lemma_trim_unchanged(t);
}

/// Whether `c` has the `White_Space` property.
pub fn is_white_space_exec(c: char) -> (res: bool)
    ensures
        res == is_white_space(c),
{
    ('\t' <= c && c <= '\r') || c == ' ' || c == '\u{85}' || c == '\u{a0}' || c == '\u{1680}'
        || ('\u{2000}' <= c && c <= '\u{200a}') || c == '\u{2028}' || c == '\u{2029}'
        || c == '\u{202f}' || c == '\u{205f}' || c == '\u{3000}'
}

/// The characters of `s` from `from` up to (not including) `to`.
pub fn sub_chars(s: &Vec<char>, from: usize, to: usize) -> (res: Vec<char>)
    requires
        from <= to <= s.len(),
    ensures
        res@ == s@.subrange(from as int, to as int),
{
    let mut res: Vec<char> = Vec::new();
    let mut i = from;
    while i < to
        invariant
            from <= i <= to <= s.len(),
            res@ == s@.subrange(from as int, i as int),
        decreases to - i,
    {
        res.push(s[i]);
        i += 1;
        assert(res@ =~= s@.subrange(from as int, i as int));
    }
    res
}

/// `s` without leading and trailing white space.
pub fn trim_chars(s: &Vec<char>) -> (res: Vec<char>)
    ensures
        res@ == trim(s@),
{
    let n = s.len();
    let mut a: usize = 0;
    assert(s@.skip(0) =~= s@);
    while a < n && is_white_space_exec(s[a])
        invariant
            a <= n == s.len(),
            trim_start(s@) == trim_start(s@.skip(a as int)),
        decreases n - a,
    {
        assert(s@.skip(a as int).skip(1) =~= s@.skip(a + 1));
        a += 1;
    }
    let ghost t = s@.skip(a as int);
    assert(trim_start(s@) == t);
    let mut b: usize = n;
    assert(t.take(t.len() as int) =~= t);
    while b > a && is_white_space_exec(s[b - 1])
        invariant
            a <= b <= n == s.len(),
            t == s@.skip(a as int),
            trim_end(t) == trim_end(t.take(b - a)),
        decreases b,
    {
        assert(t.take(b - a).drop_last() =~= t.take(b - 1 - a));
        b -= 1;
    }
    assert(t.take(b - a) =~= s@.subrange(a as int, b as int));
    sub_chars(s, a, b)
}

/// The characters of `s`.
pub fn chars_of(s: &str) -> (res: Vec<char>)
    ensures
        res@ == s@,
{
    let mut res: Vec<char> = Vec::new();
    for c in it: s.chars()
        invariant
            res@ == it.seq().take(it.index() as int),
    {
        res.push(c);
        assert(res@ =~= it.seq().take(it.index() + 1));
    }
    res
}

/// The string made of `chars`, collected through std's `FromIterator<&char>` for
/// `String`; trusted to hold exactly these characters, in this order.
#[verifier::external_body]
pub(crate) fn string_from_chars(chars: &Vec<char>) -> (res: String)
    ensures
        res@ == chars@,
{
    chars.iter().collect()
}

/// A string holding `prefix` followed by `detail`.
pub fn message_with(prefix: &str, detail: &Vec<char>) -> (res: String)
    ensures
        res@ == prefix@ + detail@,
{
    let mut res = String::from_str(prefix);
    let tail = string_from_chars(detail);
    res.append(tail.as_str());
    res
}

} // verus!
