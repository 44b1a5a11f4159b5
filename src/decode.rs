//! Decoding of fixed-column fields: trimming, integers and fixed-point decimals.
use vstd::prelude::*;
use vstd::string::StringExecFns;

use crate::error::ParseError;

verus! {

/// A fixed-point decimal number: `magnitude * 10^(-scale)`, negated when `negative`.
///
/// The scale is the number of digits written after the decimal point, so `"-12.50"`
/// decodes to magnitude `1250` with scale `2`, negative. The sign is kept apart from the
/// magnitude, so `"-0.00"` stays negative.
#[derive(Debug, Clone, Copy, PartialEq, Eq, Structural)]
pub struct Decimal {
    pub negative: bool,
    pub magnitude: u64,
    pub scale: usize,
}

/// White space as `char::is_whitespace` understands it (the Unicode `White_Space` property).
pub open spec fn is_blank(c: char) -> bool {
    ('\u{9}' <= c && c <= '\u{d}') || c == ' ' || c == '\u{85}' || c == '\u{a0}' || c == '\u{1680}'
        || ('\u{2000}' <= c && c <= '\u{200a}') || c == '\u{2028}' || c == '\u{2029}'
        || c == '\u{202f}' || c == '\u{205f}' || c == '\u{3000}'
}

pub open spec fn trim_start(s: Seq<char>) -> Seq<char>
    decreases s.len(),
{
    if s.len() > 0 && is_blank(s[0]) {
        trim_start(s.drop_first())
    } else {
        s
    }
}

pub open spec fn trim_end(s: Seq<char>) -> Seq<char>
    decreases s.len(),
{
    if s.len() > 0 && is_blank(s.last()) {
        trim_end(s.drop_last())
    } else {
        s
    }
}

/// `s` without leading and trailing white space.
pub open spec fn trim(s: Seq<char>) -> Seq<char> {
    trim_end(trim_start(s))
}

pub open spec fn is_digit(c: char) -> bool {
    '0' <= c && c <= '9'
}

pub open spec fn digit_of(c: char) -> int {
    (c as int) - ('0' as int)
}

pub open spec fn all_digits(s: Seq<char>) -> bool {
    forall|i: int| 0 <= i < s.len() ==> is_digit(#[trigger] s[i])
}

/// Reads the digits of `s` after the number `acc`, most significant first.
pub open spec fn fold_digits(acc: int, s: Seq<char>) -> int
    decreases s.len(),
{
    if s.len() == 0 {
        acc
    } else {
        fold_digits(acc * 10 + digit_of(s[0]), s.drop_first())
    }
}

/// The value of a string of decimal digits.
pub open spec fn digits_value(s: Seq<char>) -> int {
    fold_digits(0, s)
}

/// An optional leading sign: whether it is `-`, and what follows it.
pub open spec fn split_sign(s: Seq<char>) -> (bool, Seq<char>) {
    if s.len() > 0 && s[0] == '-' {
        (true, s.drop_first())
    } else if s.len() > 0 && s[0] == '+' {
        (false, s.drop_first())
    } else {
        (false, s)
    }
}

/// The unsigned integer written in `s`: an optional `+` and one or more digits.
pub open spec fn unsigned_of(s: Seq<char>) -> Option<int> {
    let body = if s.len() > 0 && s[0] == '+' { s.drop_first() } else { s };
    if body.len() > 0 && all_digits(body) {
        Some(digits_value(body))
    } else {
        None
    }
}

/// The signed integer written in `s`: an optional sign and one or more digits.
pub open spec fn signed_of(s: Seq<char>) -> Option<int> {
    let (neg, body) = split_sign(s);
    if body.len() > 0 && all_digits(body) {
        Some(if neg { -digits_value(body) } else { digits_value(body) })
    } else {
        None
    }
}

/// Index of the first `.` in `s`, or `s.len()` if there is none.
pub open spec fn dot_index(s: Seq<char>) -> int
    decreases s.len(),
{
    if s.len() == 0 || s[0] == '.' {
        0
    } else {
        1 + dot_index(s.drop_first())
    }
}

/// The digits of `s`, with at most one `.` among them and at least one digit, as
/// (value of all the digits, number of digits after the `.`).
pub open spec fn plain_of(s: Seq<char>) -> Option<(int, int)> {
    let k = dot_index(s);
    let whole = s.take(k);
    let frac = if k < s.len() { s.skip(k + 1) } else { Seq::empty() };
    if whole.len() + frac.len() > 0 && all_digits(whole) && all_digits(frac) {
        Some((fold_digits(digits_value(whole), frac), frac.len() as int))
    } else {
        None
    }
}

/// Index of the first `e` or `E` in `s`, or `s.len()` if there is none.
pub open spec fn exp_index(s: Seq<char>) -> int
    decreases s.len(),
{
    if s.len() == 0 || s[0] == 'e' || s[0] == 'E' {
        0
    } else {
        1 + exp_index(s.drop_first())
    }
}

pub open spec fn pow10(n: nat) -> int
    decreases n,
{
    if n == 0 {
        1
    } else {
        10 * pow10((n - 1) as nat)
    }
}

/// The exponent written after `e`/`E`: a signed integer that fits in an `i64`.
pub open spec fn exponent_of(s: Seq<char>) -> Option<int> {
    match signed_of(s) {
        Some(x) => if -(i64::MAX as int) <= x <= i64::MAX {
            Some(x)
        } else {
            None
        },
        None => None,
    }
}

/// `m * 10^(x - f)` as (magnitude, scale), with the scale as small as it can be without
/// going below zero.
pub open spec fn shift(m: int, f: int, x: int) -> (int, int) {
    if x <= f {
        (m, f - x)
    } else {
        (m * pow10((x - f) as nat), 0)
    }
}

/// The decimal written in `s` as (negative, magnitude, scale): an optional sign, digits with at most
/// one `.` among them and at least one digit, then optionally `e` or `E` and a signed
/// exponent that fits in an `i64`. `inf` and `NaN` are not decimals.
pub open spec fn decimal_of(s: Seq<char>) -> Option<(bool, int, int)> {
    let (neg, body) = split_sign(s);
    let e = exp_index(body);
    let exponent = if e < body.len() { exponent_of(body.skip(e + 1)) } else { Some(0) };
    match (plain_of(body.take(e)), exponent) {
        (Some((m, f)), Some(x)) => {
            let (m2, k) = shift(m, f, x);
            Some((neg, m2, k))
        },
        _ => None,
    }
}

/// The `usize` written in `s`, if it is one and in range.
pub open spec fn usize_of(s: Seq<char>) -> Option<usize> {
    match unsigned_of(s) {
        Some(n) => if n <= usize::MAX {
            Some(n as usize)
        } else {
            None
        },
        None => None,
    }
}

/// The `isize` written in `s`, if it is one and in range.
pub open spec fn isize_of(s: Seq<char>) -> Option<isize> {
    match signed_of(s) {
        Some(n) => if isize::MIN <= n <= isize::MAX {
            Some(n as isize)
        } else {
            None
        },
        None => None,
    }
}

/// The `Decimal` written in `s`, if it is one and its magnitude fits in a `u64`.
pub open spec fn decimal_value(s: Seq<char>) -> Option<Decimal> {
    match decimal_of(s) {
        Some((neg, m, k)) => if m <= u64::MAX && k <= usize::MAX {
            Some(Decimal { negative: neg, magnitude: m as u64, scale: k as usize })
        } else {
            None
        },
        None => None,
    }
}

/// A decoded value, or the field error of line `line`.
pub open spec fn or_field_error<T>(o: Option<T>, line: usize) -> Result<T, ParseError> {
    match o {
        Some(v) => Ok(v),
        None => Err(ParseError::FieldParse { line }),
    }
}

/// The characters `line[from..to]` without surrounding white space.
pub open spec fn field(line: Seq<char>, from: int, to: int) -> Seq<char> {
    trim(line.subrange(from, to))
}

pub proof fn lemma_fold_push(acc: int, s: Seq<char>, c: char)
    ensures
        fold_digits(acc, s.push(c)) == fold_digits(acc, s) * 10 + digit_of(c),
    decreases s.len(),
{
    if s.len() > 0 {
        assert(s.push(c)[0] == s[0]);
        assert(s.push(c).drop_first() =~= s.drop_first().push(c));
        lemma_fold_push(acc * 10 + digit_of(s[0]), s.drop_first(), c);
    } else {
        assert(s.push(c)[0] == c);
        assert(s.push(c).drop_first() =~= Seq::<char>::empty());
        assert(fold_digits(acc * 10 + digit_of(c), Seq::<char>::empty()) == acc * 10 + digit_of(c));
    }
}

pub proof fn lemma_fold_grows(acc: int, s: Seq<char>)
    requires
        acc >= 0,
        all_digits(s),
    ensures
        fold_digits(acc, s) >= acc,
    decreases s.len(),
{
    if s.len() > 0 {
        assert(is_digit(s[0]));
        assert(all_digits(s.drop_first())) by {
            assert forall|i: int| 0 <= i < s.drop_first().len() implies is_digit(
                #[trigger] s.drop_first()[i],
            ) by {
                assert(s.drop_first()[i] == s[i + 1]);
            }
        }
        lemma_fold_grows(acc * 10 + digit_of(s[0]), s.drop_first());
    }
}

/// Reading more digits never makes the number smaller.
pub proof fn lemma_fold_prefix(acc: int, s: Seq<char>, i: int)
    requires
        acc >= 0,
        all_digits(s),
        0 <= i <= s.len(),
    ensures
        fold_digits(acc, s) >= fold_digits(acc, s.take(i)),
    decreases s.len() - i,
{
    if i < s.len() {
        lemma_fold_prefix(acc, s, i + 1);
        assert(s.take(i + 1) =~= s.take(i).push(s[i]));
        lemma_fold_push(acc, s.take(i), s[i]);
        assert(all_digits(s.take(i)));
        lemma_fold_grows(acc, s.take(i));
        assert(is_digit(s[i]));
    } else {
        assert(s.take(i) =~= s);
    }
}

pub fn is_blank_char(c: char) -> (r: bool)
    ensures
        r == is_blank(c),
{
    ('\u{9}' <= c && c <= '\u{d}') || c == ' ' || c == '\u{85}' || c == '\u{a0}' || c == '\u{1680}'
        || ('\u{2000}' <= c && c <= '\u{200a}') || c == '\u{2028}' || c == '\u{2029}'
        || c == '\u{202f}' || c == '\u{205f}' || c == '\u{3000}'
}

/// The bounds of `line[from..to]` with surrounding white space removed.
pub fn trim_bounds(line: &[char], from: usize, to: usize) -> (r: (usize, usize))
    requires
        from <= to <= line@.len(),
    ensures
        from <= r.0 <= r.1 <= to,
        line@.subrange(r.0 as int, r.1 as int) == field(line@, from as int, to as int),
{
    let mut a: usize = from;
    while a < to && is_blank_char(line[a])
        invariant
            from <= a <= to <= line@.len(),
            trim_start(line@.subrange(from as int, to as int)) == trim_start(
                line@.subrange(a as int, to as int),
            ),
        decreases to - a,
    {
        assert(line@.subrange(a as int, to as int).drop_first() =~= line@.subrange(
            a + 1,
            to as int,
        ));
        a = a + 1;
    }
    let mut b: usize = to;
    while b > a && is_blank_char(line[b - 1])
        invariant
            from <= a <= b <= to <= line@.len(),
            trim_end(line@.subrange(a as int, to as int)) == trim_end(
                line@.subrange(a as int, b as int),
            ),
        decreases b - a,
    {
        assert(line@.subrange(a as int, b as int).drop_last() =~= line@.subrange(
            a as int,
            b - 1,
        ));
        b = b - 1;
    }
    (a, b)
}

/// Reads the digits of `line[lo..hi]` after `acc`, failing on a non-digit or once the
/// number exceeds `limit`.
fn accumulate(line: &[char], lo: usize, hi: usize, acc: u64, limit: u64) -> (r: Option<u64>)
    requires
        lo <= hi <= line@.len(),
        acc <= limit,
    ensures
        r is Some <==> all_digits(line@.subrange(lo as int, hi as int)) && fold_digits(
            acc as int,
            line@.subrange(lo as int, hi as int),
        ) <= limit,
        r is Some ==> r->0 == fold_digits(acc as int, line@.subrange(lo as int, hi as int)),
{
    let ghost seg = line@.subrange(lo as int, hi as int);
    let mut v: u64 = acc;
    let mut i: usize = lo;
    while i < hi
        invariant
            lo <= i <= hi <= line@.len(),
            seg == line@.subrange(lo as int, hi as int),
            v <= limit,
            all_digits(seg.take(i - lo)),
            v == fold_digits(acc as int, seg.take(i - lo)),
        decreases hi - i,
    {
        let c = line[i];
        assert(seg[i - lo] == c);
        if !('0' <= c && c <= '9') {
            return None;
        }
        let d = (c as u32 - '0' as u32) as u64;
        proof {
            assert(seg.take(i - lo + 1) =~= seg.take(i - lo).push(c));
            lemma_fold_push(acc as int, seg.take(i - lo), c);
        }
        if v as u128 * 10 + d as u128 > limit as u128 {
            proof {
                assert(all_digits(seg.take(i - lo + 1)));
                if all_digits(seg) {
                    lemma_fold_prefix(acc as int, seg, i - lo + 1);
                }
            }
            return None;
        }
        v = v * 10 + d;
        i = i + 1;
        assert(all_digits(seg.take(i - lo)));
    }
    assert(seg.take(i - lo) =~= seg);
    Some(v)
}

/// Decodes the unsigned integer in `line[from..to]`, surrounding white space ignored.
pub fn parse_unsigned(line: &[char], line_number: usize, from: usize, to: usize) -> (r: Result<
    usize,
    ParseError,
>)
    requires
        from <= to <= line@.len(),
    ensures
        r == or_field_error(usize_of(field(line@, from as int, to as int)), line_number),
{
    let (a, b) = trim_bounds(line, from, to);
    let ghost t = line@.subrange(a as int, b as int);
    let mut start = a;
    if a < b && line[a] == '+' {
        start = a + 1;
        assert(t.drop_first() =~= line@.subrange(start as int, b as int));
    } else {
        assert(t =~= line@.subrange(start as int, b as int));
    }
    if start == b {
        return Err(ParseError::FieldParse { line: line_number });
    }
    match accumulate(line, start, b, 0, usize::MAX as u64) {
        Some(v) => Ok(v as usize),
        None => Err(ParseError::FieldParse { line: line_number }),
    }
}

/// Decodes the signed integer in `line[from..to]`, surrounding white space ignored.
pub fn parse_signed(line: &[char], line_number: usize, from: usize, to: usize) -> (r: Result<
    isize,
    ParseError,
>)
    requires
        from <= to <= line@.len(),
    ensures
        r == or_field_error(isize_of(field(line@, from as int, to as int)), line_number),
{
    let (a, b) = trim_bounds(line, from, to);
    let ghost t = line@.subrange(a as int, b as int);
    let mut start = a;
    let mut neg = false;
    if a < b && (line[a] == '-' || line[a] == '+') {
        neg = line[a] == '-';
        start = a + 1;
        assert(t.drop_first() =~= line@.subrange(start as int, b as int));
    } else {
        assert(t =~= line@.subrange(start as int, b as int));
    }
    if start == b {
        return Err(ParseError::FieldParse { line: line_number });
    }
    let limit: u64 = if neg {
        isize::MAX as u64 + 1
    } else {
        isize::MAX as u64
    };
    match accumulate(line, start, b, 0, limit) {
        Some(v) => {
            if neg {
                Ok((0i128 - v as i128) as isize)
            } else {
                Ok(v as isize)
            }
        },
        None => Err(ParseError::FieldParse { line: line_number }),
    }
}

/// The index of the first `e` or `E` in `line[lo..hi]`, or `hi`.
fn find_exponent(line: &[char], lo: usize, hi: usize) -> (k: usize)
    requires
        lo <= hi <= line@.len(),
    ensures
        lo <= k <= hi,
        exp_index(line@.subrange(lo as int, hi as int)) == k - lo,
{
    let ghost s = line@.subrange(lo as int, hi as int);
    let mut k: usize = lo;
    assert(s.skip(0) =~= s);
    while k < hi && line[k] != 'e' && line[k] != 'E'
        invariant
            lo <= k <= hi <= line@.len(),
            s == line@.subrange(lo as int, hi as int),
            exp_index(s) == (k - lo) + exp_index(s.skip(k - lo)),
        decreases hi - k,
    {
        assert(s.skip(k - lo)[0] == line@[k as int]);
        assert(s.skip(k - lo).drop_first() =~= s.skip(k - lo + 1));
        k = k + 1;
    }
    if k < hi {
        assert(s.skip(k - lo)[0] == line@[k as int]);
    } else {
        assert(s.skip(k - lo).len() == 0);
    }
    k
}

/// Reads digits with at most one `.` among them in `line[lo..hi]`: the value of all the
/// digits, if it is at most `i64::MAX`, and the number of digits after the `.`.
fn plain_value(line: &[char], lo: usize, hi: usize) -> (r: Option<(u64, usize)>)
    requires
        lo <= hi <= line@.len(),
    ensures
        match r {
            Some((m, f)) => plain_of(line@.subrange(lo as int, hi as int))
                == Some((m as int, f as int)),
            None => match plain_of(line@.subrange(lo as int, hi as int)) {
                Some((m, _)) => m > u64::MAX,
                None => true,
            },
        },
{
    let ghost body = line@.subrange(lo as int, hi as int);
    let mut k: usize = lo;
    assert(body.skip(0) =~= body);
    while k < hi && line[k] != '.'
        invariant
            lo <= k <= hi <= line@.len(),
            body == line@.subrange(lo as int, hi as int),
            dot_index(body) == (k - lo) + dot_index(body.skip(k - lo)),
        decreases hi - k,
    {
        assert(body.skip(k - lo)[0] == line@[k as int]);
        assert(body.skip(k - lo).drop_first() =~= body.skip(k - lo + 1));
        k = k + 1;
    }
    proof {
        if k < hi {
            assert(body.skip(k - lo)[0] == line@[k as int]);
        } else {
            assert(body.skip(k - lo).len() == 0);
        }
        assert(body.take(k - lo) =~= line@.subrange(lo as int, k as int));
    }
    let frac_start: usize = if k < hi {
        k + 1
    } else {
        hi
    };
    proof {
        if k < hi {
            assert(body.skip(k - lo + 1) =~= line@.subrange(frac_start as int, hi as int));
        } else {
            assert(line@.subrange(frac_start as int, hi as int) =~= Seq::<char>::empty());
        }
    }
    if lo == k && frac_start == hi {
        return None;
    }
    let limit: u64 = u64::MAX;
    let ghost whole = line@.subrange(lo as int, k as int);
    let ghost frac = line@.subrange(frac_start as int, hi as int);
    match accumulate(line, lo, k, 0, limit) {
        Some(w) => {
            match accumulate(line, frac_start, hi, w, limit) {
                Some(m) => Some((m, hi - frac_start)),
                None => None,
            }
        },
        None => {
            proof {
                if all_digits(whole) && all_digits(frac) {
                    lemma_fold_grows(digits_value(whole), frac);
                }
            }
            None
        },
    }
}

/// Reads the exponent in `line[lo..hi]`: a signed integer that fits in an `i64`.
fn exponent_value(line: &[char], lo: usize, hi: usize) -> (r: Option<i64>)
    requires
        lo <= hi <= line@.len(),
    ensures
        match exponent_of(line@.subrange(lo as int, hi as int)) {
            Some(x) => r == Some(x as i64),
            None => r is None,
        },
{
    let ghost t = line@.subrange(lo as int, hi as int);
    let mut start = lo;
    let mut neg = false;
    if lo < hi && (line[lo] == '-' || line[lo] == '+') {
        neg = line[lo] == '-';
        start = lo + 1;
        assert(t.drop_first() =~= line@.subrange(start as int, hi as int));
    } else {
        assert(t =~= line@.subrange(start as int, hi as int));
    }
    if start == hi {
        return None;
    }
    match accumulate(line, start, hi, 0, i64::MAX as u64) {
        Some(v) => {
            if neg {
                Some(-(v as i64))
            } else {
                Some(v as i64)
            }
        },
        None => None,
    }
}

proof fn lemma_pow10_grows(i: nat, n: nat)
    requires
        i <= n,
    ensures
        pow10(n) >= pow10(i) >= 1,
    decreases n,
{
    if n > i {
        lemma_pow10_grows(i, (n - 1) as nat);
    } else if n > 0 {
        lemma_pow10_grows(0, (n - 1) as nat);
    }
}

/// `m * 10^n`, if it is at most `limit`.
fn scale_up(m: u64, n: u64, limit: u64) -> (r: Option<u64>)
    requires
        m <= limit,
    ensures
        r is Some <==> m * pow10(n as nat) <= limit,
        r is Some ==> r->0 == m * pow10(n as nat),
{
    if m == 0 {
        assert(0 * pow10(n as nat) == 0);
        return Some(0);
    }
    let mut v: u64 = m;
    let mut i: u64 = 0;
    while i < n
        invariant
            i <= n,
            1 <= m,
            v == m * pow10(i as nat),
            v <= limit,
        decreases n - i,
    {
        if v as u128 * 10 > limit as u128 {
            proof {
                lemma_pow10_grows((i + 1) as nat, n as nat);
                assert(pow10((i + 1) as nat) == 10 * pow10(i as nat));
                assert(m * pow10(n as nat) >= m * pow10((i + 1) as nat)) by (nonlinear_arith)
                    requires
                        pow10(n as nat) >= pow10((i + 1) as nat),
                        m >= 1,
                ;
                assert(m * pow10((i + 1) as nat) == 10 * (m * pow10(i as nat))) by (
                nonlinear_arith)
                    requires
                        pow10((i + 1) as nat) == 10 * pow10(i as nat),
                ;
            }
            return None;
        }
        proof {
            assert(pow10((i + 1) as nat) == 10 * pow10(i as nat));
            assert(m * pow10((i + 1) as nat) == 10 * (m * pow10(i as nat))) by (nonlinear_arith)
                requires
                    pow10((i + 1) as nat) == 10 * pow10(i as nat),
            ;
        }
        v = v * 10;
        i = i + 1;
    }
    Some(v)
}

/// Decodes the decimal in `line[from..to]`, surrounding white space ignored.
pub fn parse_decimal(line: &[char], line_number: usize, from: usize, to: usize) -> (r: Result<
    Decimal,
    ParseError,
>)
    requires
        from <= to <= line@.len(),
    ensures
        r == or_field_error(decimal_value(field(line@, from as int, to as int)), line_number),
{
    let (a, b) = trim_bounds(line, from, to);
    let ghost t = line@.subrange(a as int, b as int);
    let mut start = a;
    let mut neg = false;
    if a < b && (line[a] == '-' || line[a] == '+') {
        neg = line[a] == '-';
        start = a + 1;
        assert(t.drop_first() =~= line@.subrange(start as int, b as int));
    } else {
        assert(t =~= line@.subrange(start as int, b as int));
    }
    let ghost body = line@.subrange(start as int, b as int);
    let e = find_exponent(line, start, b);
    assert(body.take(e - start) =~= line@.subrange(start as int, e as int));
    let exponent: i64 = if e < b {
        assert(body.skip(e - start + 1) =~= line@.subrange(e + 1, b as int));
        match exponent_value(line, e + 1, b) {
            Some(x) => x,
            None => {
                return Err(ParseError::FieldParse { line: line_number });
            },
        }
    } else {
        0
    };
    let (m, f) = match plain_value(line, start, e) {
        Some(p) => p,
        None => {
            proof {
                let ghost mant = line@.subrange(start as int, e as int);
                if plain_of(mant) is Some {
                    let (m0, f0) = plain_of(mant)->0;
                    assert(m0 >= 0) by {
                        let k0 = dot_index(mant);
                        let w0 = mant.take(k0);
                        lemma_fold_grows(0, w0);
                        let fr = if k0 < mant.len() {
                            mant.skip(k0 + 1)
                        } else {
                            Seq::empty()
                        };
                        lemma_fold_grows(digits_value(w0), fr);
                    }
                    if exponent as int > f0 {
                        let n = (exponent as int - f0) as nat;
                        lemma_pow10_grows(0, n);
                        assert(m0 * pow10(n) >= m0) by (nonlinear_arith)
                            requires
                                pow10(n) >= 1,
                                m0 >= 0,
                        ;
                    }
                }
            }
            return Err(ParseError::FieldParse { line: line_number });
        },
    };
    proof {
        assert(split_sign(t) == (neg, body));
        assert(exp_index(body) == e - start);
        if e < b {
            assert(exponent_of(body.skip(e - start + 1)) == Some(exponent as int));
        }
        assert(plain_of(body.take(e - start)) == Some((m as int, f as int)));
    }
    if exponent as i128 <= f as i128 {
        let k: i128 = f as i128 - exponent as i128;
        if k > usize::MAX as i128 {
            return Err(ParseError::FieldParse { line: line_number });
        }
        Ok(Decimal { negative: neg, magnitude: m, scale: k as usize })
    } else {
        match scale_up(m, (exponent as i128 - f as i128) as u64, u64::MAX) {
            Some(v) => Ok(Decimal { negative: neg, magnitude: v, scale: 0 }),
            None => Err(ParseError::FieldParse { line: line_number }),
        }
    }
}

/// Relies on `String::from_iter`, which collects the characters in order.
#[verifier::external_body]
fn string_from_chars(chars: &[char]) -> (r: String)
    ensures
        r@ == chars@,
{
    String::from_iter(chars)
}

/// The text of `line[from..to]` as it stands.
pub fn raw_text(line: &[char], from: usize, to: usize) -> (r: String)
    requires
        from <= to <= line@.len(),
    ensures
        r@ == line@.subrange(from as int, to as int),
{
    string_from_chars(vstd::slice::slice_subrange(line, from, to))
}

/// The text of `line[from..to]` without surrounding white space.
pub fn text_field(line: &[char], from: usize, to: usize) -> (r: String)
    requires
        from <= to <= line@.len(),
    ensures
        r@ == field(line@, from as int, to as int),
{
    let (a, b) = trim_bounds(line, from, to);
    raw_text(line, a, b)
}

pub open spec fn digit_char(n: int) -> char {
    ((n % 10) + ('0' as int)) as char
}

/// The decimal digits of `n`, least significant first, padded with zeros to at least
/// `width` digits (and always at least one).
pub open spec fn low_digits(n: nat, width: nat) -> Seq<char>
    decreases n + width,
{
    if n < 10 && width <= 1 {
        seq![digit_char(n as int)]
    } else {
        seq![digit_char(n as int)] + low_digits(
            n / 10,
            if width > 0 {
                (width - 1) as nat
            } else {
                0
            },
        )
    }
}

pub open spec fn reversed(s: Seq<char>) -> Seq<char>
    decreases s.len(),
{
    if s.len() == 0 {
        s
    } else {
        reversed(s.drop_first()).push(s[0])
    }
}

/// The digits of `d`'s magnitude, most significant first, with at least `scale + 1` of them.
pub open spec fn magnitude_digits(d: Decimal) -> Seq<char> {
    reversed(low_digits(d.magnitude as nat, (d.scale + 1) as nat))
}

/// `d` written out: a `-` when it is negative, the digits, and a `.` before the last
/// `scale` of them when `scale > 0`.
pub open spec fn decimal_text(d: Decimal) -> Seq<char> {
    let ds = magnitude_digits(d);
    let k = ds.len() - d.scale;
    let sign = if d.negative { seq!['-'] } else { Seq::empty() };
    let fraction = if d.scale > 0 { seq!['.'] + ds.skip(k) } else { Seq::empty() };
    sign + ds.take(k) + fraction
}

proof fn lemma_low_digits(n: nat, width: nat)
    ensures
        low_digits(n, width).len() >= width,
        low_digits(n, width).len() >= 1,
        all_digits(reversed(low_digits(n, width))),
        reversed(low_digits(n, width)).len() == low_digits(n, width).len(),
        digits_value(reversed(low_digits(n, width))) == n,
    decreases n + width,
{
    let c = digit_char(n as int);
    let s = low_digits(n, width);
    assert(is_digit(c));
    assert(digit_of(c) == n % 10);
    if n < 10 && width <= 1 {
        assert(s.drop_first() =~= Seq::<char>::empty());
        assert(reversed(s) == reversed(s.drop_first()).push(c));
        assert(reversed(s) =~= seq![c]);
        lemma_fold_push(0, Seq::<char>::empty(), c);
        assert(Seq::<char>::empty().push(c) =~= seq![c]);
    } else {
        let w2: nat = if width > 0 {
            (width - 1) as nat
        } else {
            0
        };
        let rest = low_digits(n / 10, w2);
        lemma_low_digits(n / 10, w2);
        assert(s.drop_first() =~= rest);
        assert(s[0] == c);
        assert(reversed(s) == reversed(rest).push(c));
        lemma_fold_push(0, reversed(rest), c);
        assert(all_digits(reversed(s))) by {
            assert forall|i: int| 0 <= i < reversed(s).len() implies is_digit(
                #[trigger] reversed(s)[i],
            ) by {
                if i < reversed(rest).len() {
                    assert(reversed(s)[i] == reversed(rest)[i]);
                }
            }
        }
    }
}

proof fn lemma_fold_concat(acc: int, x: Seq<char>, y: Seq<char>)
    ensures
        fold_digits(acc, x + y) == fold_digits(fold_digits(acc, x), y),
    decreases y.len(),
{
    if y.len() == 0 {
        assert(x + y =~= x);
    } else {
        let c = y.last();
        let y0 = y.drop_last();
        lemma_fold_concat(acc, x, y0);
        assert(x + y =~= (x + y0).push(c));
        assert(y =~= y0.push(c));
        lemma_fold_push(acc, x + y0, c);
        lemma_fold_push(fold_digits(acc, x), y0, c);
    }
}

proof fn lemma_dot_index(w: Seq<char>, rest: Seq<char>)
    requires
        all_digits(w),
    ensures
        dot_index(w + rest) == w.len() + dot_index(rest),
    decreases w.len(),
{
    if w.len() > 0 {
        assert((w + rest)[0] == w[0]);
        assert((w + rest).drop_first() =~= w.drop_first() + rest);
        assert(all_digits(w.drop_first())) by {
            assert forall|i: int| 0 <= i < w.drop_first().len() implies is_digit(
                #[trigger] w.drop_first()[i],
            ) by {
                assert(w.drop_first()[i] == w[i + 1]);
            }
        }
        lemma_dot_index(w.drop_first(), rest);
    } else {
        assert(w + rest =~= rest);
    }
}

proof fn lemma_no_exponent(s: Seq<char>)
    requires
        forall|i: int| 0 <= i < s.len() ==> is_digit(#[trigger] s[i]) || s[i] == '.',
    ensures
        exp_index(s) == s.len(),
    decreases s.len(),
{
    if s.len() > 0 {
        assert(is_digit(s[0]) || s[0] == '.');
        assert forall|i: int| 0 <= i < s.drop_first().len() implies is_digit(
            #[trigger] s.drop_first()[i],
        ) || s.drop_first()[i] == '.' by {
            assert(s.drop_first()[i] == s[i + 1]);
        }
        lemma_no_exponent(s.drop_first());
    }
}

/// Writing a decimal out and decoding the text gives the decimal back, digit for digit.
pub proof fn lemma_decimal_round_trip(d: Decimal)
    ensures
        decimal_value(decimal_text(d)) == Some(d),
{
    let ds = magnitude_digits(d);
    lemma_low_digits(d.magnitude as nat, (d.scale + 1) as nat);
    let k = ds.len() - d.scale;
    let whole = ds.take(k);
    let tail = ds.skip(k);
    assert(all_digits(whole));
    assert(all_digits(tail));
    assert(whole + tail =~= ds);
    lemma_fold_concat(0, whole, tail);
    let body = if d.scale > 0 {
        whole + (seq!['.'] + tail)
    } else {
        whole
    };
    let sign = if d.negative {
        seq!['-']
    } else {
        Seq::<char>::empty()
    };
    if d.scale > 0 {
        assert(decimal_text(d) =~= sign + body);
        lemma_dot_index(whole, seq!['.'] + tail);
        assert((seq!['.'] + tail)[0] == '.');
        assert(body.take(whole.len() as int) =~= whole);
        assert(body.skip(whole.len() + 1 as int) =~= tail);
    } else {
        assert(decimal_text(d) =~= sign + body);
        assert(tail =~= Seq::<char>::empty());
        assert(whole =~= ds);
        lemma_dot_index(whole, Seq::<char>::empty());
        assert(whole + Seq::<char>::empty() =~= whole);
        assert(body.take(whole.len() as int) =~= whole);
    }
    assert(body.len() > 0 && is_digit(body[0]));
    assert forall|i: int| 0 <= i < body.len() implies is_digit(#[trigger] body[i]) || body[i]
        == '.' by {
        if i < whole.len() {
            assert(body[i] == whole[i]);
        } else if i > whole.len() {
            assert(body[i] == tail[i - whole.len() - 1]);
        }
    }
    lemma_no_exponent(body);
    assert(body.take(body.len() as int) =~= body);
    if d.negative {
        assert((sign + body)[0] == '-');
        assert((sign + body).drop_first() =~= body);
    } else {
        assert(sign + body =~= body);
    }
}

/// Decoding a field, writing the value out with the same number of fraction digits, and
/// decoding that text again gives the same value.
pub proof fn lemma_field_round_trip(t: Seq<char>)
    requires
        decimal_value(t) is Some,
    ensures
        decimal_value(decimal_text(decimal_value(t)->0)) == decimal_value(t),
{
    lemma_decimal_round_trip(decimal_value(t)->0);
}

/// A field written as `to_text` writes decimals decodes to a value that `to_text` writes
/// back as the same text, digit for digit.
pub proof fn lemma_text_round_trip(t: Seq<char>, d: Decimal)
    requires
        t == decimal_text(d),
    ensures
        decimal_value(t) is Some,
        decimal_text(decimal_value(t)->0) == t,
{
    lemma_decimal_round_trip(d);
}

/// The decimal text of an integer: a `-` when it is negative, then its digits with no
/// leading zero.
pub open spec fn integer_text(n: int) -> Seq<char> {
    let ds = reversed(low_digits((if n < 0 { -n } else { n }) as nat, 1));
    if n < 0 {
        seq!['-'] + ds
    } else {
        ds
    }
}

proof fn lemma_integer_text(n: int)
    ensures
        signed_of(integer_text(n)) == Some(n),
        n >= 0 ==> unsigned_of(integer_text(n)) == Some(n),
{
    let a: nat = (if n < 0 { -n } else { n }) as nat;
    let ds = reversed(low_digits(a, 1));
    lemma_low_digits(a, 1);
    assert(is_digit(ds[0]));
    if n < 0 {
        assert((seq!['-'] + ds)[0] == '-');
        assert((seq!['-'] + ds).drop_first() =~= ds);
    }
}

/// Decoding the text of an `isize` gives it back, so writing a decoded field out again
/// reproduces the field's text.
pub proof fn lemma_signed_round_trip(n: isize)
    ensures
        isize_of(integer_text(n as int)) == Some(n),
{
    lemma_integer_text(n as int);
}

/// Decoding the text of a `usize` gives it back, so writing a decoded field out again
/// reproduces the field's text.
pub proof fn lemma_unsigned_round_trip(n: usize)
    ensures
        usize_of(integer_text(n as int)) == Some(n),
{
    lemma_integer_text(n as int);
}

impl Decimal {
    /// The decimal written out with exactly `scale` digits after the point.
    pub fn to_text(&self) -> (r: String)
        requires
            self.scale < usize::MAX,
        ensures
            r@ == decimal_text(*self),
    {
        let neg = self.negative;
        let mut n: u64 = self.magnitude;
        let mut width: usize = self.scale + 1;
        let ghost full = low_digits(self.magnitude as nat, (self.scale + 1) as nat);
        let mut low: Vec<char> = Vec::new();
        loop
            invariant_except_break
                full == low@ + low_digits(n as nat, width as nat),
            ensures
                low@ == full,
            decreases n + width,
        {
            let c = ((n % 10) as u8 + 48u8) as char;
            assert(c == digit_char(n as int));
            low.push(c);
            if n < 10 && width <= 1 {
                assert(low_digits(n as nat, width as nat) == seq![c]);
                assert(low@ =~= full);
                break ;
            }
            let ghost w2: nat = if width > 0 {
                (width - 1) as nat
            } else {
                0
            };
            assert(low_digits(n as nat, width as nat) == seq![c] + low_digits((n / 10) as nat, w2));
            assert(low@ + low_digits((n / 10) as nat, w2) =~= full);
            n = n / 10;
            if width > 0 {
                width = width - 1;
            }
        }
        let mut digits: Vec<char> = Vec::new();
        let mut i: usize = low.len();
        assert(low@.skip(i as int) =~= Seq::<char>::empty());
        while i > 0
            invariant
                i <= low@.len(),
                digits@ == reversed(low@.skip(i as int)),
            decreases i,
        {
            assert(low@.skip(i - 1).drop_first() =~= low@.skip(i as int));
            assert(low@.skip(i - 1)[0] == low@[i - 1]);
            digits.push(low[i - 1]);
            i = i - 1;
        }
        assert(low@.skip(0) =~= low@);
        proof {
            lemma_low_digits(self.magnitude as nat, (self.scale + 1) as nat);
        }
        let k = digits.len() - self.scale;
        let mut text = if neg {
            String::from_str("-")
        } else {
            String::new()
        };
        proof {
            reveal_strlit("-");
            reveal_strlit(".");
        }
        let whole = string_from_chars(vstd::slice::slice_subrange(digits.as_slice(), 0, k));
        text.append(whole.as_str());
        if self.scale > 0 {
            text.append(".");
            let fraction = string_from_chars(
                vstd::slice::slice_subrange(digits.as_slice(), k, digits.len()),
            );
            text.append(fraction.as_str());
        }
        proof {
            let ds = magnitude_digits(*self);
            assert(ds == digits@);
            assert(ds.take(k as int) =~= digits@.subrange(0, k as int));
            assert(ds.skip(k as int) =~= digits@.subrange(k as int, digits@.len() as int));
            if neg {
                assert("-"@ =~= seq!['-']);
            }
            if self.scale > 0 {
                assert("."@ =~= seq!['.']);
            }
            assert(text@ =~= decimal_text(*self));
        }
        text
    }
}

} // verus!
