//! Decimal integers: what `str::parse::<i64>` accepts and what `{:0w}` prints.
use vstd::prelude::*;

verus! {

/// An ASCII decimal digit.
pub open spec fn is_digit(c: char) -> bool {
    '0' <= c && c <= '9'
}

/// The value of a decimal digit character.
pub open spec fn digit_value(c: char) -> int {
    c as int - '0' as int
}

/// The digit character of a value below ten.
pub open spec fn digit_char(d: int) -> char {
    if d == 0 { '0' }
    else if d == 1 { '1' }
    else if d == 2 { '2' }
    else if d == 3 { '3' }
    else if d == 4 { '4' }
    else if d == 5 { '5' }
    else if d == 6 { '6' }
    else if d == 7 { '7' }
    else if d == 8 { '8' }
    else { '9' }
}

/// Every character of `d` is a decimal digit.
pub open spec fn all_digits(d: Seq<char>) -> bool {
    forall|i: int| 0 <= i < d.len() ==> is_digit(#[trigger] d[i])
}

/// The number written by the digits `d`, most significant first.
pub open spec fn digits_value(d: Seq<char>) -> int
    decreases d.len(),
{
    if d.len() == 0 {
        0
    } else {
        digits_value(d.drop_last()) * 10 + digit_value(d.last())
    }
}

/// What `str::parse::<i64>` gives for `s`: an optional `+` or `-`, then one or more
/// decimal digits, whose signed value must lie in the range of `i64`.
pub open spec fn parse_i64(s: Seq<char>) -> Option<i64> {
    let signed = s.len() > 0 && (s[0] == '-' || s[0] == '+');
    let negative = s.len() > 0 && s[0] == '-';
    let d = if signed { s.skip(1) } else { s };
    if d.len() == 0 || !all_digits(d) {
        None
    } else {
        let v = if negative { -digits_value(d) } else { digits_value(d) };
        if i64::MIN <= v <= i64::MAX {
            Some(v as i64)
        } else {
            None
        }
    }
}

/// `a / b` as Rust computes it on integers (`b != 0`): the quotient of the magnitudes,
/// negative where exactly one operand is, that is, rounded toward zero.
pub open spec fn trunc_div(a: int, b: int) -> int {
    let ma = if a < 0 { -a } else { a };
    let mb = if b < 0 { -b } else { b };
    if (a < 0) == (b < 0) { ma / mb } else { -(ma / mb) }
}

/// `a % b` as Rust computes it: the remainder that goes with [`trunc_div`].
pub open spec fn trunc_rem(a: int, b: int) -> int {
    a - b * trunc_div(a, b)
}

/// `v` lies in the range of `i64`.
pub open spec fn fits_i64(v: int) -> bool {
    i64::MIN <= v <= i64::MAX
}

/// The decimal digits of `n`, most significant first, without leading zeros.
pub open spec fn decimal(n: nat) -> Seq<char>
    decreases n,
{
    if n < 10 {
        seq![digit_char(n as int)]
    } else {
        decimal(n / 10) + seq![digit_char((n % 10) as int)]
    }
}

/// `k` zero digits.
pub open spec fn zeros(k: int) -> Seq<char> {
    Seq::new(if k > 0 { k as nat } else { 0 }, |i: int| '0')
}

/// `v` as `format!("{:0w$}", v)` prints it with `w == width`: a `-` for a negative
/// value, then zeros up to the width (which counts the sign), then the digits.
pub open spec fn zero_padded(v: int, width: nat) -> Seq<char> {
    let mag: nat = (if v < 0 { -v } else { v }) as nat;
    let sign = if v < 0 { seq!['-'] } else { Seq::<char>::empty() };
    let digits = decimal(mag);
    sign + zeros(width - sign.len() - digits.len()) + digits
}

pub proof fn lemma_digit_char(d: int)
    requires
        0 <= d < 10,
    ensures
        is_digit(digit_char(d)),
        digit_value(digit_char(d)) == d,
{
}

/// The decimal digits of `n` are digits, at least one, and they read back as `n`.
pub proof fn lemma_decimal(n: nat)
    ensures
        decimal(n).len() >= 1,
        all_digits(decimal(n)),
        digits_value(decimal(n)) == n,
        decimal(n)[0] != '-' && decimal(n)[0] != '+',
    decreases n,
{
    if n < 10 {
        lemma_digit_char(n as int);
        let d = decimal(n);
        assert(d.drop_last() =~= Seq::<char>::empty());
        assert(digits_value(d.drop_last()) == 0);
        assert(digits_value(d) == digits_value(d.drop_last()) * 10 + digit_value(d.last()));
    } else {
        lemma_decimal(n / 10);
        lemma_digit_char((n % 10) as int);
        let d = decimal(n);
        assert(d.drop_last() =~= decimal(n / 10));
        assert(d.last() == digit_char((n % 10) as int));
        assert(n == (n / 10) * 10 + n % 10);
        assert(digits_value(d) == digits_value(d.drop_last()) * 10 + digit_value(d.last()));
        assert(forall|i: int| 0 <= i < d.len() - 1 ==> d[i] == decimal(n / 10)[i]);
    }
}

/// Leading zeros do not change the value of a digit string.
pub proof fn lemma_leading_zeros(k: int, d: Seq<char>)
    ensures
        digits_value(zeros(k) + d) == digits_value(d),
    decreases d.len(),
{
    if d.len() == 0 {
        lemma_zeros_value(k);
        assert(zeros(k) + d =~= zeros(k));
    } else {
        lemma_leading_zeros(k, d.drop_last());
        assert((zeros(k) + d).drop_last() =~= zeros(k) + d.drop_last());
    }
}

pub proof fn lemma_zeros_value(k: int)
    ensures
        digits_value(zeros(k)) == 0,
        all_digits(zeros(k)),
    decreases k,
{
    if k > 0 {
        lemma_zeros_value(k - 1);
        assert(zeros(k).drop_last() =~= zeros(k - 1));
    }
}

/// A zero-padded integer reads back as itself.
pub proof fn lemma_parse_zero_padded(v: int, width: nat)
    requires
        i64::MIN <= v <= i64::MAX,
    ensures
        parse_i64(zero_padded(v, width)) == Some(v as i64),
{
    let mag: nat = (if v < 0 { -v } else { v }) as nat;
    let digits = decimal(mag);
    lemma_decimal(mag);
    lemma_zeros_value(width - 1 - digits.len());
    lemma_zeros_value(width - digits.len());
    let s = zero_padded(v, width);
    if v < 0 {
        let z = zeros(width - 1 - digits.len());
        lemma_leading_zeros(width - 1 - digits.len(), digits);
        assert(s =~= seq!['-'] + (z + digits));
        assert(s.skip(1) =~= z + digits);
        assert forall|i: int| 0 <= i < s.skip(1).len() implies is_digit(#[trigger] s.skip(1)[i]) by {
            if i < z.len() {
                assert(s.skip(1)[i] == z[i]);
            } else {
                assert(s.skip(1)[i] == digits[i - z.len()]);
            }
        }
    } else {
        let z = zeros(width - digits.len());
        lemma_leading_zeros(width - digits.len(), digits);
        assert(s =~= z + digits);
        assert forall|i: int| 0 <= i < s.len() implies is_digit(#[trigger] s[i]) by {
            if i < z.len() {
                assert(s[i] == z[i]);
            } else {
                assert(s[i] == digits[i - z.len()]);
            }
        }
        if z.len() > 0 {
            assert(s[0] == '0');
        } else {
            assert(s[0] == digits[0]);
        }
    }
}

/// A character that a zero-padded integer is made of: a digit or the minus sign.
pub open spec fn is_numeral_char(c: char) -> bool {
    is_digit(c) || c == '-'
}

/// A zero-padded integer is non-empty and made of digits and the minus sign.
pub proof fn lemma_zero_padded_chars(v: int, width: nat)
    ensures
        zero_padded(v, width).len() >= 1,
        forall|i: int| 0 <= i < zero_padded(v, width).len() ==> is_numeral_char(#[trigger] zero_padded(v, width)[i]),
{
    let mag: nat = (if v < 0 { -v } else { v }) as nat;
    let sign = if v < 0 { seq!['-'] } else { Seq::<char>::empty() };
    let digits = decimal(mag);
    let z = zeros(width - sign.len() - digits.len());
    lemma_decimal(mag);
    let s = zero_padded(v, width);
    assert(s == sign + z + digits);
    assert forall|i: int| 0 <= i < s.len() implies is_numeral_char(#[trigger] s[i]) by {
        if i < sign.len() {
            assert(s[i] == sign[i]);
        } else if i < sign.len() + z.len() {
            assert(s[i] == z[i - sign.len()]);
        } else {
            assert(s[i] == digits[i - sign.len() - z.len()]);
        }
    }
}

/// The digit character of `d`.
pub fn digit_char_exec(d: u64) -> (c: char)
    requires
        d < 10,
    ensures
        c == digit_char(d as int),
{
    if d == 0 { '0' }
    else if d == 1 { '1' }
    else if d == 2 { '2' }
    else if d == 3 { '3' }
    else if d == 4 { '4' }
    else if d == 5 { '5' }
    else if d == 6 { '6' }
    else if d == 7 { '7' }
    else if d == 8 { '8' }
    else { '9' }
}

/// The decimal digits of `n`.
pub fn decimal_chars(n: u64) -> (res: Vec<char>)
    ensures
        res@ == decimal(n as nat),
    decreases n,
{
    if n < 10 {
        let mut v: Vec<char> = Vec::new();
        v.push(digit_char_exec(n));
        assert(v@ =~= decimal(n as nat));
        v
    } else {
        let mut v = decimal_chars(n / 10);
        v.push(digit_char_exec(n % 10));
        assert(v@ =~= decimal(n as nat));
        v
    }
}

/// The value `negative ? -magnitude : magnitude`, zero-padded to `width`.
pub fn zero_padded_chars(negative: bool, magnitude: u64, width: usize) -> (res: Vec<char>)
    ensures
        res@ == zero_padded(if negative { -(magnitude as int) } else { magnitude as int }, width as nat),
{
    let ghost v: int = if negative { -(magnitude as int) } else { magnitude as int };
    let digits = decimal_chars(magnitude);
    proof {
        lemma_decimal(magnitude as nat);
    }
    let mut res: Vec<char> = Vec::new();
    let mut used: usize = digits.len();
    if negative && magnitude > 0 {
        res.push('-');
        if used < usize::MAX {
            used = used + 1;
        }
    }
    let ghost sign = if v < 0 { seq!['-'] } else { Seq::<char>::empty() };
    assert(res@ =~= sign);
    let fill: usize = if width > used { width - used } else { 0 };
    assert(fill == zeros(width - sign.len() - digits.len()).len());
    let mut k: usize = 0;
    while k < fill
        invariant
            k <= fill,
            res@ == sign + zeros(k as int),
        decreases fill - k,
    {
        res.push('0');
        k += 1;
        assert(res@ =~= sign + zeros(k as int));
    }
    let ghost before = res@;
    crate::text::append_chars(&mut res, &digits);
    assert(zeros(fill as int) =~= zeros(width - sign.len() - digits.len()));
    res
}

/// Parses `s` as `str::parse::<i64>` does.
pub fn parse_i64_chars(s: &Vec<char>) -> (res: Option<i64>)
    ensures
        res == parse_i64(s@),
{
    let n = s.len();
    let signed = n > 0 && (s[0] == '-' || s[0] == '+');
    let negative = n > 0 && s[0] == '-';
    let start: usize = if signed { 1 } else { 0 };
    let ghost d = if signed { s@.skip(1) } else { s@ };
    assert(signed == (s@.len() > 0 && (s@[0] == '-' || s@[0] == '+')));
    assert(negative == (s@.len() > 0 && s@[0] == '-'));
    assert(d =~= s@.skip(start as int));
    if start == n {
        return None;
    }
    // the largest magnitude that still fits: 2^63 for a negative value
    let limit: u64 = if negative { 0x8000_0000_0000_0000 } else { 0x7fff_ffff_ffff_ffff };
    let mut acc: u64 = 0;
    let mut i: usize = start;
    assert(d.take(0) =~= Seq::<char>::empty());
    while i < n
        invariant
            start <= i <= n == s.len(),
            d =~= s@.skip(start as int),
            d == (if signed { s@.skip(1) } else { s@ }),
            signed == (s@.len() > 0 && (s@[0] == '-' || s@[0] == '+')),
            negative == (s@.len() > 0 && s@[0] == '-'),
            start < n,
            acc as int == digits_value(d.take(i - start)),
            all_digits(d.take(i - start)),
            acc <= limit,
            limit == (if negative { 0x8000_0000_0000_0000u64 } else { 0x7fff_ffff_ffff_ffffu64 }),
        decreases n - i,
    {
        let c = s[i];
        if !('0' <= c && c <= '9') {
            assert(!is_digit(d[i - start]));
            assert(!all_digits(d));
            assert(parse_i64(s@).is_none());
            return None;
        }
        let dv: u64 = if c == '0' { 0 } else if c == '1' { 1 } else if c == '2' { 2 } else if c == '3' { 3 }
            else if c == '4' { 4 } else if c == '5' { 5 } else if c == '6' { 6 } else if c == '7' { 7 }
            else if c == '8' { 8 } else { 9 };
        assert(dv as int == digit_value(c));
        let ghost next = d.take(i + 1 - start);
        assert(next.drop_last() =~= d.take(i - start));
        assert(next.last() == c);
        if acc > (limit - dv) / 10 {
            proof {
                assert(digits_value(next) > limit) by (nonlinear_arith)
                    requires
                        digits_value(next) == acc * 10 + dv,
                        acc > (limit - dv) / 10,
                        dv <= 9,
                        limit >= 9,
                ;
                if all_digits(d) {
                    lemma_prefix_value_le(d, i + 1 - start);
                    assert(digits_value(d) > limit);
                }
                assert(parse_i64(s@).is_none());
            }
            return None;
        }
        acc = acc * 10 + dv;
        i += 1;
        assert(all_digits(d.take(i - start))) by {
            assert forall|j: int| 0 <= j < i - start implies is_digit(#[trigger] d.take(i - start)[j]) by {
                if j < i - 1 - start {
                    assert(d.take(i - start)[j] == d.take(i - 1 - start)[j]);
                }
            }
        }
    }
    assert(d.take(n - start) =~= d);
    if negative {
        if acc == 0x8000_0000_0000_0000 {
            Some(i64::MIN)
        } else {
            Some(-(acc as i64))
        }
    } else {
        Some(acc as i64)
    }
}

/// The value of a prefix of a digit string is at most the value of the whole.
pub proof fn lemma_prefix_value_le(d: Seq<char>, k: int)
    requires
        0 <= k <= d.len(),
        all_digits(d),
    ensures
        digits_value(d.take(k)) <= digits_value(d),
        0 <= digits_value(d),
    decreases d.len(),
{
    if d.len() == 0 {
        assert(d.take(k) =~= d);
    } else {
        assert(all_digits(d.drop_last())) by {
            assert forall|j: int| 0 <= j < d.drop_last().len() implies is_digit(#[trigger] d.drop_last()[j]) by {
                assert(d.drop_last()[j] == d[j]);
            }
        }
        assert(is_digit(d[d.len() - 1]));
        if k == d.len() {
            assert(d.take(k) =~= d);
            lemma_prefix_value_le(d.drop_last(), 0);
        } else {
            lemma_prefix_value_le(d.drop_last(), k);
            assert(d.drop_last().take(k) =~= d.take(k));
        }
    }
}

} // verus!
