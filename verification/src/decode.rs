//! Reading the fields of an input row: operation names, unsigned integers as
//! the CSV reader reads them (decimal, or hexadecimal after `0x`), and amounts
//! as decimal numbers (with an optional exponent) rounded to four decimal
//! places.
use vstd::prelude::*;
use crate::model::{Input, Operations};
use crate::text::{chars_of, digit_value};

verus! {

/// The value of a character as a digit in base 10 or 16, or -1 where it is
/// not one.
pub open spec fn radix_digit(c: char, radix: int) -> int {
    if '0' <= c && c <= '9' {
        c as int - 48
    } else if radix == 16 && 'a' <= c && c <= 'f' {
        c as int - 87
    } else if radix == 16 && 'A' <= c && c <= 'F' {
        c as int - 55
    } else {
        -1
    }
}

pub open spec fn digits_valid(s: Seq<char>, radix: int) -> bool {
    forall|i: int| 0 <= i < s.len() ==> radix_digit(#[trigger] s[i], radix) >= 0
}

/// The number that a sequence of digits writes, most significant first.
pub open spec fn digits_value(s: Seq<char>, radix: int) -> int
    decreases s.len(),
{
    if s.len() == 0 {
        0
    } else {
        digits_value(s.drop_last(), radix) * radix + radix_digit(s.last(), radix)
    }
}

/// An unsigned number in the given base, as std's `from_str_radix` reads one:
/// an optional `+`, then at least one digit, and a value of at most `max`.
pub open spec fn parse_radix(s: Seq<char>, radix: int, max: int) -> Option<int> {
    let digits = if s.len() > 0 && s[0] == '+' {
        s.drop_first()
    } else {
        s
    };
    if digits.len() > 0 && digits_valid(digits, radix) && digits_value(digits, radix) <= max {
        Some(digits_value(digits, radix))
    } else {
        None
    }
}

/// An unsigned field as the CSV reader reads it: hexadecimal after a `0x`
/// prefix, decimal otherwise. An empty or unreadable field gives `None`.
pub open spec fn unsigned_field(f: Seq<char>, max: int) -> Option<int> {
    if f.len() >= 2 && f[0] == '0' && f[1] == 'x' {
        parse_radix(f.skip(2), 16, max)
    } else {
        parse_radix(f, 10, max)
    }
}

pub proof fn lemma_digits_value_nonneg(s: Seq<char>, radix: int)
    requires
        digits_valid(s, radix),
        radix >= 1,
    ensures
        digits_value(s, radix) >= 0,
    decreases s.len(),
{
    if s.len() > 0 {
        lemma_digits_value_nonneg(s.drop_last(), radix);
        assert(radix_digit(s[s.len() - 1], radix) >= 0);
        assert(digits_value(s.drop_last(), radix) * radix >= 0) by (nonlinear_arith)
            requires
                digits_value(s.drop_last(), radix) >= 0,
                radix >= 1,
        ;
    }
}

/// Appending digits never makes the value smaller.
pub proof fn lemma_prefix_value_le(s: Seq<char>, radix: int, j: int)
    requires
        0 <= j <= s.len(),
        digits_valid(s, radix),
        radix >= 1,
    ensures
        digits_value(s.take(j), radix) <= digits_value(s, radix),
    decreases s.len(),
{
    if j < s.len() {
        let p = s.drop_last();
        lemma_prefix_value_le(p, radix, j);
        assert(p.take(j) =~= s.take(j));
        lemma_digits_value_nonneg(p, radix);
        assert(radix_digit(s[s.len() - 1], radix) >= 0);
        assert(digits_value(p, radix) * radix >= digits_value(p, radix)) by (nonlinear_arith)
            requires
                digits_value(p, radix) >= 0,
                radix >= 1,
        ;
    } else {
        assert(s.take(j) =~= s);
    }
}

/// The digit value of a character in base 10 or 16.
pub fn radix_digit_of(c: char, radix: u32) -> (d: i32)
    requires
        radix == 10 || radix == 16,
    ensures
        d == radix_digit(c, radix as int),
        -1 <= d < radix,
{
    let n = c as u32;
    if 48 <= n && n <= 57 {
        (n - 48) as i32
    } else if radix == 16 && 97 <= n && n <= 102 {
        (n - 87) as i32
    } else if radix == 16 && 65 <= n && n <= 70 {
        (n - 55) as i32
    } else {
        -1
    }
}

/// Whether `v[lo..hi]` is all digits.
pub fn range_digits_valid(v: &Vec<char>, lo: usize, hi: usize, radix: u32) -> (r: bool)
    requires
        lo <= hi <= v.len(),
        radix == 10 || radix == 16,
    ensures
        r == digits_valid(v@.subrange(lo as int, hi as int), radix as int),
{
    let mut i = lo;
    while i < hi
        invariant
            lo <= i <= hi <= v.len(),
            radix == 10 || radix == 16,
            forall|j: int| lo <= j < i ==> radix_digit(#[trigger] v@[j], radix as int) >= 0,
        decreases hi - i,
    {
        if radix_digit_of(v[i], radix) < 0 {
            assert(v@.subrange(lo as int, hi as int)[i - lo] == v@[i as int]);
            return false;
        }
        i += 1;
    }
    assert forall|j: int| 0 <= j < hi - lo implies radix_digit(
        #[trigger] v@.subrange(lo as int, hi as int)[j],
        radix as int,
    ) >= 0 by {
        assert(v@.subrange(lo as int, hi as int)[j] == v@[lo + j]);
    }
    true
}

/// The value of the digits `v[lo..hi]`, or `None` where it exceeds `max`.
pub fn range_value(v: &Vec<char>, lo: usize, hi: usize, radix: u32, max: u128) -> (r: Option<u128>)
    requires
        lo <= hi <= v.len(),
        radix == 10 || radix == 16,
        digits_valid(v@.subrange(lo as int, hi as int), radix as int),
    ensures
        match r {
            Some(x) => x == digits_value(v@.subrange(lo as int, hi as int), radix as int) && x
                <= max,
            None => digits_value(v@.subrange(lo as int, hi as int), radix as int) > max,
        },
{
    let ghost s = v@.subrange(lo as int, hi as int);
    let mut acc: u128 = 0;
    let mut i = lo;
    while i < hi
        invariant
            lo <= i <= hi <= v.len(),
            radix == 10 || radix == 16,
            s == v@.subrange(lo as int, hi as int),
            digits_valid(s, radix as int),
            acc as int == digits_value(v@.subrange(lo as int, i as int), radix as int),
            acc <= max,
        decreases hi - i,
    {
        assert(s[i - lo] == v@[i as int]);
        let d = radix_digit_of(v[i], radix);
        assert(d >= 0);
        let d: u128 = d as u128;
        let rd: u128 = radix as u128;
        let ghost next = v@.subrange(lo as int, i + 1);
        assert(next.drop_last() =~= v@.subrange(lo as int, i as int));
        assert(next =~= s.take(i + 1 - lo));
        if d > max || acc > (max - d) / rd {
            proof {
                assert(acc * rd + d > max) by (nonlinear_arith)
                    requires
                        d > max || acc > (max - d) / (rd as int),
                        rd >= 1,
                        acc >= 0,
                ;
                lemma_prefix_value_le(s, radix as int, i + 1 - lo);
            }
            return None;
        }
        assert(acc * rd + d <= max) by (nonlinear_arith)
            requires
                d <= max,
                acc <= (max - d) / (rd as int),
                rd >= 1,
        ;
        acc = acc * rd + d;
        i += 1;
    }
    assert(v@.subrange(lo as int, i as int) =~= s);
    Some(acc)
}

/// Reads an unsigned field of value at most `max`.
pub fn parse_unsigned(f: &Vec<char>, max: u64) -> (r: Option<u64>)
    ensures
        match r {
            Some(x) => unsigned_field(f@, max as int) == Some(x as int),
            None => unsigned_field(f@, max as int) is None,
        },
{
    let len = f.len();
    let hex = len >= 2 && f[0] == '0' && f[1] == 'x';
    let start: usize = if hex { 2 } else { 0 };
    let radix: u32 = if hex { 16 } else { 10 };
    let ghost s = if hex { f@.skip(2) } else { f@ };
    assert(s =~= f@.subrange(start as int, len as int));
    let lo: usize = if start < len && f[start] == '+' { start + 1 } else { start };
    let ghost digits = if s.len() > 0 && s[0] == '+' { s.drop_first() } else { s };
    assert(digits =~= f@.subrange(lo as int, len as int));
    if lo == len {
        return None;
    }
    if !range_digits_valid(f, lo, len, radix) {
        return None;
    }
    match range_value(f, lo, len, radix, max as u128) {
        Some(x) => Some(x as u64),
        None => None,
    }
}

/// The largest amount accepted, in ten-thousandths; larger amounts are
/// refused, so that every amount fits in an `i64`.
pub open spec fn max_units() -> int {
    9_000_000_000_000_000_000
}

pub open spec fn pow10(n: nat) -> int
    decreases n,
{
    if n == 0 {
        1
    } else {
        10 * pow10((n - 1) as nat)
    }
}

pub open spec fn is_exponent_marker(c: char) -> bool {
    c == 'e' || c == 'E'
}

/// Position `k` holds the first exponent marker of `s`.
pub open spec fn first_marker_at(s: Seq<char>, k: int) -> bool {
    &&& 0 <= k < s.len()
    &&& is_exponent_marker(s[k])
    &&& forall|j: int| 0 <= j < k ==> !is_exponent_marker(#[trigger] s[j])
}

/// A number split at its first exponent marker: the mantissa, and the text
/// of the exponent where there is one.
pub open spec fn split_exponent(s: Seq<char>) -> (Seq<char>, Option<Seq<char>>) {
    if exists|k: int| first_marker_at(s, k) {
        let k = choose|k: int| first_marker_at(s, k);
        (s.take(k), Some(s.skip(k + 1)))
    } else {
        (s, None)
    }
}

/// The digits before and after the decimal point of a mantissa.
pub open spec fn mantissa_parts(m: Seq<char>) -> (Seq<char>, Seq<char>) {
    match m.index_of_first('.') {
        Some(k) => (m.take(k), m.skip(k + 1)),
        None => (m, Seq::<char>::empty()),
    }
}

/// The digits of an exponent, after its optional sign.
pub open spec fn exponent_digits(x: Seq<char>) -> Seq<char> {
    if x.len() > 0 && (x[0] == '-' || x[0] == '+') {
        x.drop_first()
    } else {
        x
    }
}

/// An exponent: an optional sign, then at least one decimal digit.
pub open spec fn exponent_value(x: Seq<char>) -> Option<int> {
    let d = exponent_digits(x);
    if d.len() > 0 && digits_valid(d, 10) {
        Some(
            if x[0] == '-' {
                -digits_value(d, 10)
            } else {
                digits_value(d, 10)
            },
        )
    } else {
        None
    }
}

/// The number that the digits `ds` write with the decimal point after the
/// first `q` of them (zeros filling in where `q` lies outside), rounded to a
/// whole number, half away from zero.
pub open spec fn shifted_units(ds: Seq<char>, q: int) -> int {
    if q < 0 {
        0
    } else if q < ds.len() {
        digits_value(ds.take(q), 10) + if digit_value(ds[q]) >= 5 {
            1int
        } else {
            0int
        }
    } else {
        digits_value(ds, 10) * pow10((q - ds.len()) as nat)
    }
}

/// An unsigned decimal number as a float is written, `digits[.digits]` with
/// at least one digit in all, then an optional exponent `e` or `E` with an
/// optional sign and at least one digit; in ten-thousandths, rounded half
/// away from zero, and at most `max_units()`.
pub open spec fn unsigned_amount(body: Seq<char>) -> Option<int> {
    let (m, x) = split_exponent(body);
    let (whole, frac) = mantissa_parts(m);
    let e = match x {
        Some(x) => exponent_value(x),
        None => Some(0int),
    };
    if whole.len() + frac.len() > 0 && digits_valid(whole, 10) && digits_valid(frac, 10)
        && e is Some {
        let u = shifted_units(whole + frac, whole.len() + e->Some_0 + 4);
        if u <= max_units() {
            Some(u)
        } else {
            None
        }
    } else {
        None
    }
}

/// An amount field: an optional sign, then an unsigned number, in
/// ten-thousandths of a currency unit. An empty or unreadable field gives `None`.
pub open spec fn amount_field(f: Seq<char>) -> Option<int> {
    if f.len() > 0 && f[0] == '-' {
        match unsigned_amount(f.drop_first()) {
            Some(u) => Some(-u),
            None => None,
        }
    } else if f.len() > 0 && f[0] == '+' {
        unsigned_amount(f.drop_first())
    } else {
        unsigned_amount(f)
    }
}

pub proof fn lemma_pow10_monotone(a: nat, b: nat)
    requires
        a <= b,
    ensures
        1 <= pow10(a) <= pow10(b),
    decreases b,
{
    if b > a {
        lemma_pow10_monotone(a, (b - 1) as nat);
    } else if a > 0 {
        lemma_pow10_monotone((a - 1) as nat, (a - 1) as nat);
    }
}

pub proof fn lemma_pow10_large(n: nat)
    requires
        n >= 19,
    ensures
        pow10(n) > max_units(),
{
    reveal_with_fuel(pow10, 20);
    assert(pow10(19) == 10_000_000_000_000_000_000);
    lemma_pow10_monotone(19, n);
}

/// `10^n` for a small `n`.
fn pow10_exec(n: u32) -> (r: u128)
    requires
        n <= 18,
    ensures
        r == pow10(n as nat),
        r <= 1_000_000_000_000_000_000,
    decreases n,
{
    proof {
        reveal_with_fuel(pow10, 19);
        assert(pow10(18) == 1_000_000_000_000_000_000);
        lemma_pow10_monotone(n as nat, 18);
    }
    if n == 0 {
        1
    } else {
        10 * pow10_exec(n - 1)
    }
}

/// The position of the first `c` in `f[lo..hi]`, or `hi`.
fn find_char(f: &Vec<char>, lo: usize, hi: usize, c: char) -> (k: usize)
    requires
        lo <= hi <= f.len(),
    ensures
        lo <= k <= hi,
        match f@.subrange(lo as int, hi as int).index_of_first(c) {
            Some(i) => k < hi && i == k - lo,
            None => k == hi,
        },
{
    let ghost body = f@.subrange(lo as int, hi as int);
    let mut k = lo;
    while k < hi && f[k] != c
        invariant
            lo <= k <= hi <= f.len(),
            forall|j: int| lo <= j < k ==> f@[j] != c,
        decreases hi - k,
    {
        k += 1;
    }
    proof {
        body.index_of_first_ensures(c);
        if k < hi {
            assert(body[k - lo] == c);
            let idx = body.index_of_first(c)->Some_0;
            if idx < k - lo {
                assert(f@[lo + idx] == body[idx]);
            }
        } else {
            assert forall|j: int| 0 <= j < body.len() implies body[j] != c by {
                assert(body[j] == f@[lo + j]);
            }
            assert(!body.contains(c));
        }
    }
    k
}

/// The position of the first exponent marker in `f[lo..]`, or the length of `f`.
fn find_marker(f: &Vec<char>, lo: usize) -> (k: usize)
    requires
        lo <= f.len(),
    ensures
        lo <= k <= f.len(),
        split_exponent(f@.subrange(lo as int, f.len() as int)) == if k < f.len() {
            (
                f@.subrange(lo as int, k as int),
                Some(f@.subrange(k + 1, f.len() as int)),
            )
        } else {
            (f@.subrange(lo as int, f.len() as int), None)
        },
{
    let len = f.len();
    let ghost body = f@.subrange(lo as int, len as int);
    let mut k = lo;
    while k < len && f[k] != 'e' && f[k] != 'E'
        invariant
            lo <= k <= len == f.len(),
            forall|j: int| lo <= j < k ==> !is_exponent_marker(#[trigger] f@[j]),
        decreases len - k,
    {
        k += 1;
    }
    proof {
        if k < len {
            assert forall|j: int| 0 <= j < k - lo implies !is_exponent_marker(#[trigger] body[j]) by {
                assert(body[j] == f@[lo + j]);
            }
            assert(body[k - lo] == f@[k as int]);
            assert(first_marker_at(body, k - lo));
            let c = choose|i: int| first_marker_at(body, i);
            if c < k - lo {
                assert(body[c] == f@[lo + c]);
            }
            if c > k - lo {
                assert(!is_exponent_marker(body[k - lo]));
            }
            assert(c == k - lo);
            assert(body.take(k - lo) =~= f@.subrange(lo as int, k as int));
            assert(body.skip(k - lo + 1) =~= f@.subrange(k + 1, len as int));
        } else {
            if exists|i: int| first_marker_at(body, i) {
                let i = choose|i: int| first_marker_at(body, i);
                assert(body[i] == f@[lo + i]);
            }
        }
    }
    k
}

/// Reads the exponent `f[lo..hi]`: `None` where it is not one; otherwise
/// whether it is negative, and its magnitude, or `None` for a magnitude
/// above `2^100`.
fn parse_exponent(f: &Vec<char>, lo: usize, hi: usize) -> (r: Option<(bool, Option<u128>)>)
    requires
        lo <= hi <= f.len(),
    ensures
        ({
            let x = f@.subrange(lo as int, hi as int);
            let d = exponent_digits(x);
            match r {
                None => exponent_value(x) is None,
                Some((neg, mag)) => exponent_value(x) is Some && (neg <==> (x[0] == '-')) && match mag {
                    Some(m) => m == digits_value(d, 10) && m <= 0x10_0000_0000_0000_0000_0000_0000,
                    None => digits_value(d, 10) > 0x10_0000_0000_0000_0000_0000_0000,
                },
            }
        }),
{
    let ghost x = f@.subrange(lo as int, hi as int);
    let signed = lo < hi && (f[lo] == '-' || f[lo] == '+');
    let neg = lo < hi && f[lo] == '-';
    let dlo: usize = if signed { lo + 1 } else { lo };
    assert(exponent_digits(x) =~= f@.subrange(dlo as int, hi as int));
    if dlo == hi {
        return None;
    }
    if !range_digits_valid(f, dlo, hi, 10) {
        return None;
    }
    assert(x[0] == f@[lo as int]);
    let mag = range_value(f, dlo, hi, 10, 0x10_0000_0000_0000_0000_0000_0000);
    Some((neg, mag))
}

/// The digits of `f[lo..k]` followed by those of `f[flo..hi]`.
fn join_digits(f: &Vec<char>, lo: usize, k: usize, flo: usize, hi: usize) -> (ds: Vec<char>)
    requires
        lo <= k <= f.len(),
        flo <= hi <= f.len(),
    ensures
        ds@ == f@.subrange(lo as int, k as int) + f@.subrange(flo as int, hi as int),
{
    let mut ds: Vec<char> = Vec::new();
    let mut i = lo;
    while i < k
        invariant
            lo <= i <= k <= f.len(),
            ds@ == f@.subrange(lo as int, i as int),
        decreases k - i,
    {
        ds.push(f[i]);
        i += 1;
        assert(ds@ =~= f@.subrange(lo as int, i as int));
    }
    let ghost first = ds@;
    let mut j = flo;
    while j < hi
        invariant
            flo <= j <= hi <= f.len(),
            ds@ == first + f@.subrange(flo as int, j as int),
        decreases hi - j,
    {
        ds.push(f[j]);
        j += 1;
        assert(ds@ =~= first + f@.subrange(flo as int, j as int));
    }
    ds
}

/// `shifted_units(ds, q)`, or `None` where it exceeds `max_units()`.
fn shift_round(ds: &Vec<char>, q: i128) -> (r: Option<u128>)
    requires
        digits_valid(ds@, 10),
        ds.len() > 0,
    ensures
        match r {
            Some(u) => u == shifted_units(ds@, q as int) && u <= max_units(),
            None => shifted_units(ds@, q as int) > max_units(),
        },
{
    let len = ds.len();
    assert(ds@ =~= ds@.subrange(0, len as int));
    if q < 0 {
        return Some(0);
    }
    if q < len as i128 {
        let qu = q as usize;
        assert(ds@.take(q as int) =~= ds@.subrange(0, qu as int));
        let v = match range_value(ds, 0, qu, 10, 9_000_000_000_000_000_000) {
            Some(v) => v,
            None => return None,
        };
        let d = radix_digit_of(ds[qu], 10);
        assert(radix_digit(ds@[q as int], 10) >= 0);
        let u = if d >= 5 { v + 1 } else { v };
        if u > 9_000_000_000_000_000_000 {
            return None;
        }
        return Some(u);
    }
    let v = match range_value(ds, 0, len, 10, 9_000_000_000_000_000_000) {
        Some(v) => v,
        None => {
            proof {
                lemma_pow10_monotone(0, (q - len) as nat);
                assert(digits_value(ds@, 10) * pow10((q - len) as nat) >= digits_value(ds@, 10))
                    by (nonlinear_arith)
                    requires
                        digits_value(ds@, 10) > 0,
                        pow10((q - len) as nat) >= 1,
                ;
            }
            return None;
        },
    };
    if v == 0 {
        return Some(0);
    }
    let n = q - len as i128;
    if n >= 19 {
        proof {
            lemma_pow10_large(n as nat);
            assert(v * pow10(n as nat) >= pow10(n as nat)) by (nonlinear_arith)
                requires
                    v >= 1,
                    pow10(n as nat) >= 1,
            ;
        }
        return None;
    }
    let p = pow10_exec(n as u32);
    assert(v * p <= 9_000_000_000_000_000_000u128 * 1_000_000_000_000_000_000u128) by (nonlinear_arith)
        requires
            v <= 9_000_000_000_000_000_000u128,
            p <= 1_000_000_000_000_000_000u128,
    ;
    let u = v * p;
    if u > 9_000_000_000_000_000_000 {
        return None;
    }
    Some(u)
}

/// `shifted_units(ds, w + e + 4)`, or `None` where it exceeds `max_units()`,
/// for the exponent `e` as `parse_exponent` reads it (`None`: no exponent).
fn units_with_exponent(
    ds: &Vec<char>,
    w: usize,
    exp: Option<(bool, Option<u128>)>,
    Ghost(e): Ghost<int>,
) -> (r: Option<u128>)
    requires
        digits_valid(ds@, 10),
        ds.len() > 0,
        w <= ds.len(),
        match exp {
            None => e == 0,
            Some((neg, Some(m))) => m <= 0x10_0000_0000_0000_0000_0000_0000 && e == if neg {
                -m
            } else {
                m as int
            },
            Some((neg, None)) => if neg {
                e < -0x10_0000_0000_0000_0000_0000_0000
            } else {
                e > 0x10_0000_0000_0000_0000_0000_0000
            },
        },
    ensures
        match r {
            Some(u) => u == shifted_units(ds@, w + e + 4) && u <= max_units(),
            None => shifted_units(ds@, w + e + 4) > max_units(),
        },
{
    let w: i128 = w as i128;
    let q: i128 = match exp {
        None => w + 4,
        Some((neg, Some(mag))) => if neg {
            w + 4 - (mag as i128)
        } else {
            w + 4 + (mag as i128)
        },
        Some((neg, None)) => {
            if neg {
                return Some(0);
            }
            let v = match range_value(ds, 0, ds.len(), 10, 0) {
                Some(v) => v,
                None => {
                    assert(ds@ =~= ds@.subrange(0, ds@.len() as int));
                    proof {
                        lemma_pow10_large((w + e + 4 - ds@.len()) as nat);
                        assert(digits_value(ds@, 10) * pow10((w + e + 4 - ds@.len()) as nat)
                            >= pow10((w + e + 4 - ds@.len()) as nat)) by (nonlinear_arith)
                            requires
                                digits_value(ds@, 10) >= 1,
                                pow10((w + e + 4 - ds@.len()) as nat) >= 1,
                        ;
                    }
                    return None;
                },
            };
            assert(ds@ =~= ds@.subrange(0, ds@.len() as int));
            proof {
                let n = (w + e + 4 - ds@.len()) as nat;
                assert(digits_value(ds@, 10) == 0);
                assert(digits_value(ds@, 10) * pow10(n) == 0) by (nonlinear_arith)
                    requires
                        digits_value(ds@, 10) == 0,
                ;
                assert(w + e + 4 >= ds@.len());
            }
            return Some(0);
        },
    };
    shift_round(ds, q)
}

/// Reads the unsigned number `f[lo..]`, in ten-thousandths.
fn parse_unsigned_amount(f: &Vec<char>, lo: usize) -> (r: Option<u64>)
    requires
        lo <= f.len(),
    ensures
        match r {
            Some(x) => unsigned_amount(f@.subrange(lo as int, f.len() as int)) == Some(x as int),
            None => unsigned_amount(f@.subrange(lo as int, f.len() as int)) is None,
        },
{
    let len = f.len();
    let ghost body = f@.subrange(lo as int, len as int);
    let k = find_marker(f, lo);
    let ghost m = f@.subrange(lo as int, k as int);
    let dot = find_char(f, lo, k, '.');
    let frac_lo: usize = if dot < k { dot + 1 } else { k };
    proof {
        if dot < k {
            assert(m.take(dot - lo) =~= f@.subrange(lo as int, dot as int));
            assert(m.skip(dot - lo + 1) =~= f@.subrange(frac_lo as int, k as int));
        } else {
            assert(f@.subrange(frac_lo as int, k as int) =~= Seq::<char>::empty());
            assert(f@.subrange(lo as int, dot as int) =~= m);
        }
    }
    let ghost whole = f@.subrange(lo as int, dot as int);
    let ghost frac = f@.subrange(frac_lo as int, k as int);
    if (dot - lo) + (k - frac_lo) == 0 {
        return None;
    }
    if !range_digits_valid(f, lo, dot, 10) || !range_digits_valid(f, frac_lo, k, 10) {
        return None;
    }
    let exp = if k < len {
        match parse_exponent(f, k + 1, len) {
            None => return None,
            Some(e) => Some(e),
        }
    } else {
        None
    };
    let ds = join_digits(f, lo, dot, frac_lo, k);
    assert(digits_valid(ds@, 10)) by {
        assert forall|i: int| 0 <= i < ds@.len() implies radix_digit(#[trigger] ds@[i], 10) >= 0 by {
            if i < whole.len() {
                assert(ds@[i] == whole[i]);
            } else {
                assert(ds@[i] == frac[i - whole.len()]);
            }
        }
    }
    let w: i128 = (dot - lo) as i128;
    let ghost e_spec: int = if k < len {
        exponent_value(f@.subrange(k + 1, len as int))->Some_0
    } else {
        0
    };
    proof {
        assert(whole + frac == ds@);
        let u = shifted_units(ds@, w + e_spec + 4);
        assert(unsigned_amount(body) == if u <= max_units() {
            Some(u)
        } else {
            None
        });
    }
    proof {
        let x = f@.subrange(k + 1, len as int);
        if k < len {
            assert(exponent_value(x) is Some);
        }
    }
    match units_with_exponent(&ds, dot - lo, exp, Ghost(e_spec)) {
        Some(u) => Some(u as u64),
        None => None,
    }
}

/// Reads an amount field, in ten-thousandths of a currency unit.
pub fn parse_amount(f: &Vec<char>) -> (r: Option<i64>)
    ensures
        match r {
            Some(x) => amount_field(f@) == Some(x as int),
            None => amount_field(f@) is None,
        },
{
    let len = f.len();
    let signed = len > 0 && (f[0] == '-' || f[0] == '+');
    let lo: usize = if signed {
        1
    } else {
        0
    };
    assert(f@.drop_first() =~= f@.subrange(1, len as int));
    assert(f@ =~= f@.subrange(0, len as int));
    match parse_unsigned_amount(f, lo) {
        None => None,
        Some(u) => {
            let u: i64 = u as i64;
            if signed && f[0] == '-' {
                Some(-u)
            } else {
                Some(u)
            }
        },
    }
}

/// Whether the characters of `f` are those of `s`.
pub fn field_is(f: &Vec<char>, s: &str) -> (r: bool)
    ensures
        r == (f@ == s@),
{
    let t = chars_of(s);
    if f.len() != t.len() {
        return false;
    }
    let mut i: usize = 0;
    while i < f.len()
        invariant
            f.len() == t.len(),
            t@ == s@,
            i <= f.len(),
            forall|j: int| 0 <= j < i ==> f@[j] == t@[j],
        decreases f.len() - i,
    {
        if f[i] != t[i] {
            return false;
        }
        i += 1;
    }
    assert(f@ =~= t@);
    true
}

/// An operation field: the lower-case name of an operation, exactly.
pub open spec fn operation_field(f: Seq<char>) -> Option<Operations> {
    if f == "deposit"@ {
        Some(Operations::Deposit)
    } else if f == "withdrawal"@ {
        Some(Operations::Withdrawal)
    } else if f == "dispute"@ {
        Some(Operations::Dispute)
    } else if f == "resolve"@ {
        Some(Operations::Resolve)
    } else if f == "chargeback"@ {
        Some(Operations::Chargeback)
    } else {
        None
    }
}

/// Reads an operation field.
pub fn parse_operation(f: &Vec<char>) -> (r: Option<Operations>)
    ensures
        r == operation_field(f@),
{
    if field_is(f, "deposit") {
        Some(Operations::Deposit)
    } else if field_is(f, "withdrawal") {
        Some(Operations::Withdrawal)
    } else if field_is(f, "dispute") {
        Some(Operations::Dispute)
    } else if field_is(f, "resolve") {
        Some(Operations::Resolve)
    } else if field_is(f, "chargeback") {
        Some(Operations::Chargeback)
    } else {
        None
    }
}

pub open spec fn u16_field(f: Seq<char>) -> Option<u16> {
    match unsigned_field(f, 0xffff) {
        Some(v) => Some(v as u16),
        None => None,
    }
}

pub open spec fn u32_field(f: Seq<char>) -> Option<u32> {
    match unsigned_field(f, 0xffff_ffff) {
        Some(v) => Some(v as u32),
        None => None,
    }
}

pub open spec fn i64_field(f: Seq<char>) -> Option<i64> {
    match amount_field(f) {
        Some(v) => Some(v as i64),
        None => None,
    }
}

/// Column `i` of the header is the one column named `name`.
pub open spec fn sole_column(h: Seq<Seq<char>>, name: Seq<char>, i: int) -> bool {
    &&& 0 <= i < h.len()
    &&& h[i] == name
    &&& forall|j: int| 0 <= j < h.len() && j != i ==> h[j] != name
}

/// The column of the header named `name`, where exactly one is.
pub open spec fn column_of(h: Seq<Seq<char>>, name: Seq<char>) -> Option<int> {
    if exists|i: int| sole_column(h, name, i) {
        Some(choose|i: int| sole_column(h, name, i))
    } else {
        None
    }
}

/// One of the four field names of the header.
pub open spec fn is_field_name(n: Seq<char>) -> bool {
    n == "type"@ || n == "client"@ || n == "tx"@ || n == "amount"@
}

/// A row reaches every column of the header that is not one of the four
/// fields: each such column is read (and dropped), so a row that ends before
/// one of them cannot be read.
pub open spec fn reaches_other_columns(h: Seq<Seq<char>>, rec: Seq<Seq<char>>) -> bool {
    forall|j: int| 0 <= j < h.len() && !is_field_name(#[trigger] h[j]) ==> j < rec.len()
}

/// The text of column `j` of a row, where the row reaches it.
pub open spec fn field_at(rec: Seq<Seq<char>>, j: int) -> Option<Seq<char>> {
    if 0 <= j < rec.len() {
        Some(rec[j])
    } else {
        None
    }
}

/// A field read with `read`, `None` where the row ends before its column.
pub open spec fn read_opt<T>(f: Option<Seq<char>>, read: spec_fn(Seq<char>) -> Option<T>) -> Option<T> {
    match f {
        Some(text) => read(text),
        None => None,
    }
}

/// A row read against the header: each field is taken from the column of its
/// name, and is `None` where it is empty, unreadable, or beyond the end of the
/// row. The row cannot be read where one of the four names is missing from the
/// header or appears in it twice, or where the row ends before a column of
/// another name.
pub open spec fn decode_row(h: Seq<Seq<char>>, rec: Seq<Seq<char>>) -> Option<Input> {
    match (
        column_of(h, "type"@),
        column_of(h, "client"@),
        column_of(h, "tx"@),
        column_of(h, "amount"@),
    ) {
        (Some(a), Some(b), Some(c), Some(d)) => if reaches_other_columns(h, rec) {
            Some(
                Input {
                    op_type: read_opt(field_at(rec, a), |t: Seq<char>| operation_field(t)),
                    client: read_opt(field_at(rec, b), |t: Seq<char>| u16_field(t)),
                    tx: read_opt(field_at(rec, c), |t: Seq<char>| u32_field(t)),
                    amount: read_opt(field_at(rec, d), |t: Seq<char>| i64_field(t)),
                },
            )
        } else {
            None
        },
        _ => None,
    }
}

/// The records of a CSV text read as rows: the first record is the header,
/// each later one is a row.
pub open spec fn decode_all(recs: Seq<Seq<Seq<char>>>) -> Seq<Option<Input>> {
    if recs.len() == 0 {
        Seq::empty()
    } else {
        Seq::new((recs.len() - 1) as nat, |i: int| decode_row(recs[0], recs[i + 1]))
    }
}

/// A field of decimal digits is read as the number it writes, wherever that
/// number fits: any value up to `u16::MAX` as a client id and up to
/// `u32::MAX` as a transaction id; a larger one is not read.
pub proof fn lemma_decimal_ids_read(s: Seq<char>)
    requires
        s.len() > 0,
        digits_valid(s, 10),
    ensures
        digits_value(s, 10) <= 0xffff ==> u16_field(s) == Some(digits_value(s, 10) as u16),
        digits_value(s, 10) <= 0xffff_ffff ==> u32_field(s) == Some(digits_value(s, 10) as u32),
        digits_value(s, 10) > 0xffff ==> u16_field(s) is None,
        digits_value(s, 10) > 0xffff_ffff ==> u32_field(s) is None,
{
    assert(radix_digit(s[0], 10) >= 0);
    if s.len() >= 2 {
        assert(radix_digit(s[1], 10) >= 0);
    }
}

/// A whole number of currency units, written as decimal digits, is read as
/// that many units times ten thousand; a leading minus sign negates it.
pub proof fn lemma_whole_amount_read(s: Seq<char>)
    requires
        s.len() > 0,
        digits_valid(s, 10),
        digits_value(s, 10) <= 900_000_000_000_000,
    ensures
        amount_field(s) == Some(digits_value(s, 10) * 10000),
        amount_field(seq!['-'] + s) == Some(-(digits_value(s, 10) * 10000)),
{
    assert(radix_digit(s[0], 10) >= 0);
    assert forall|k: int| 0 <= k < s.len() implies !is_exponent_marker(#[trigger] s[k]) by {
        assert(radix_digit(s[k], 10) >= 0);
    }
    assert(!exists|k: int| first_marker_at(s, k));
    s.index_of_first_ensures('.');
    if s.contains('.') {
        let k = choose|k: int| 0 <= k < s.len() && s[k] == '.';
        assert(radix_digit(s[k], 10) >= 0);
    }
    assert(s + Seq::<char>::empty() =~= s);
    reveal_with_fuel(pow10, 5);
    assert(pow10(4) == 10000);
    assert((seq!['-'] + s).drop_first() =~= s);
}

/// A row with a client id and a transaction id written as decimal numbers in
/// range is read with exactly those ids.
pub proof fn lemma_row_reads_ids(h: Seq<Seq<char>>, rec: Seq<Seq<char>>, cc: int, ct: int)
    requires
        column_of(h, "type"@) is Some,
        column_of(h, "client"@) == Some(cc),
        column_of(h, "tx"@) == Some(ct),
        column_of(h, "amount"@) is Some,
        reaches_other_columns(h, rec),
        cc < rec.len(),
        ct < rec.len(),
        rec[cc].len() > 0,
        digits_valid(rec[cc], 10),
        digits_value(rec[cc], 10) <= 0xffff,
        rec[ct].len() > 0,
        digits_valid(rec[ct], 10),
        digits_value(rec[ct], 10) <= 0xffff_ffff,
    ensures
        decode_row(h, rec) is Some,
        decode_row(h, rec)->Some_0.client == Some(digits_value(rec[cc], 10) as u16),
        decode_row(h, rec)->Some_0.tx == Some(digits_value(rec[ct], 10) as u32),
{
    lemma_decimal_ids_read(rec[cc]);
    lemma_decimal_ids_read(rec[ct]);
    assert(cc >= 0 && ct >= 0) by {
        let i = choose|i: int| sole_column(h, "client"@, i);
        let j = choose|j: int| sole_column(h, "tx"@, j);
    }
}

/// A row that ends before the transaction-id or amount column is still read,
/// with that field absent, as long as it reaches every column of another name.
pub proof fn lemma_short_row_fields_absent(h: Seq<Seq<char>>, rec: Seq<Seq<char>>, ct: int, cd: int)
    requires
        column_of(h, "type"@) is Some,
        column_of(h, "client"@) is Some,
        column_of(h, "tx"@) == Some(ct),
        column_of(h, "amount"@) == Some(cd),
        reaches_other_columns(h, rec),
    ensures
        decode_row(h, rec) is Some,
        ct >= rec.len() ==> decode_row(h, rec)->Some_0.tx is None,
        cd >= rec.len() ==> decode_row(h, rec)->Some_0.amount is None,
{
}

pub proof fn lemma_chars_deep_view(v: Vec<char>)
    ensures
        v.deep_view() == v@,
{
    assert(v.deep_view() =~= v@);
}

/// The column of the header named `name`, where exactly one is.
pub fn find_column(h: &Vec<Vec<char>>, name: &str) -> (r: Option<usize>)
    ensures
        match r {
            Some(i) => column_of(h.deep_view(), name@) == Some(i as int),
            None => column_of(h.deep_view(), name@) is None,
        },
{
    let ghost hv = h.deep_view();
    let mut found: Option<usize> = None;
    let mut twice = false;
    let mut i: usize = 0;
    while i < h.len()
        invariant
            i <= h.len(),
            hv == h.deep_view(),
            twice ==> found is Some,
            match found {
                None => forall|j: int| 0 <= j < i ==> hv[j] != name@,
                Some(k) => k < i && hv[k as int] == name@ && (!twice ==> forall|j: int|
                    0 <= j < i && j != k ==> hv[j] != name@) && (twice ==> exists|j: int|
                    0 <= j < i && j != k && hv[j] == name@),
            },
        decreases h.len() - i,
    {
        proof {
            lemma_chars_deep_view(h@[i as int]);
            assert(hv[i as int] == h@[i as int]@);
        }
        let ghost prev_found = found;
        let ghost prev_twice = twice;
        if field_is(&h[i], name) {
            match found {
                None => {
                    found = Some(i);
                },
                Some(k) => {
                    twice = true;
                    assert(hv[i as int] == name@);
                },
            }
        }
        proof {
            if prev_twice {
                assert(found == prev_found);
                let j2 = choose|j2: int| 0 <= j2 < i && j2 != prev_found->Some_0 && hv[j2] == name@;
                assert(0 <= j2 < i + 1 && j2 != found->Some_0 && hv[j2] == name@);
            }
            if twice && !prev_twice {
                assert(0 <= i < i + 1 && i != found->Some_0 && hv[i as int] == name@);
            }
        }
        i += 1;
    }
    match found {
        None => {
            assert(!exists|j: int| sole_column(hv, name@, j));
            None
        },
        Some(k) => {
            if twice {
                assert(!exists|j: int| sole_column(hv, name@, j)) by {
                    if exists|j: int| sole_column(hv, name@, j) {
                        let j = choose|j: int| sole_column(hv, name@, j);
                        let j2 = choose|j2: int| 0 <= j2 < h.len() && j2 != k && hv[j2] == name@;
                        assert(j == k || j == j2);
                    }
                }
                None
            } else {
                assert(sole_column(hv, name@, k as int));
                let ghost c = choose|j: int| sole_column(hv, name@, j);
                assert(c == k);
                Some(k)
            }
        },
    }
}

/// The columns of the four fields, where the header has each exactly once.
pub fn header_columns(h: &Vec<Vec<char>>) -> (r: Option<(usize, usize, usize, usize)>)
    ensures
        match r {
            Some((a, b, c, d)) => column_of(h.deep_view(), "type"@) == Some(a as int)
                && column_of(h.deep_view(), "client"@) == Some(b as int) && column_of(
                h.deep_view(),
                "tx"@,
            ) == Some(c as int) && column_of(h.deep_view(), "amount"@) == Some(d as int),
            None => column_of(h.deep_view(), "type"@) is None || column_of(
                h.deep_view(),
                "client"@,
            ) is None || column_of(h.deep_view(), "tx"@) is None || column_of(
                h.deep_view(),
                "amount"@,
            ) is None,
        },
{
    let a = find_column(h, "type");
    let b = find_column(h, "client");
    let c = find_column(h, "tx");
    let d = find_column(h, "amount");
    match (a, b, c, d) {
        (Some(a), Some(b), Some(c), Some(d)) => Some((a, b, c, d)),
        _ => None,
    }
}

/// One past the last column of the header that is not one of the four
/// fields (zero where there is none).
pub fn other_columns_end(h: &Vec<Vec<char>>) -> (e: usize)
    ensures
        e <= h.len(),
        forall|j: int| e <= j < h.len() ==> is_field_name(#[trigger] h.deep_view()[j]),
        e > 0 ==> !is_field_name(h.deep_view()[e - 1]),
{
    let ghost hv = h.deep_view();
    let mut e: usize = 0;
    let mut i: usize = 0;
    while i < h.len()
        invariant
            e <= i <= h.len(),
            hv == h.deep_view(),
            forall|j: int| e <= j < i ==> is_field_name(#[trigger] hv[j]),
            e > 0 ==> !is_field_name(hv[e - 1]),
        decreases h.len() - i,
    {
        proof {
            lemma_chars_deep_view(h@[i as int]);
            assert(hv[i as int] == h@[i as int]@);
        }
        let named = field_is(&h[i], "type") || field_is(&h[i], "client") || field_is(&h[i], "tx")
            || field_is(&h[i], "amount");
        if !named {
            e = i + 1;
        }
        i += 1;
    }
    e
}

/// The text of column `j` of a row, where the row reaches it.
fn read_column(rec: &Vec<Vec<char>>, j: usize) -> (r: Option<&Vec<char>>)
    ensures
        match r {
            Some(f) => field_at(rec.deep_view(), j as int) == Some(f@),
            None => field_at(rec.deep_view(), j as int) is None,
        },
{
    if j < rec.len() {
        proof {
            lemma_chars_deep_view(rec@[j as int]);
        }
        Some(&rec[j])
    } else {
        None
    }
}

/// Reads the fields of a row from the given columns; `others_end` is
/// `other_columns_end` of the header.
fn decode_fields(rec: &Vec<Vec<char>>, cols: (usize, usize, usize, usize), others_end: usize) -> (r: Option<Input>)
    ensures
        match r {
            Some(row) => others_end <= rec.len() && row == (Input {
                op_type: read_opt(field_at(rec.deep_view(), cols.0 as int), |t: Seq<char>| operation_field(t)),
                client: read_opt(field_at(rec.deep_view(), cols.1 as int), |t: Seq<char>| u16_field(t)),
                tx: read_opt(field_at(rec.deep_view(), cols.2 as int), |t: Seq<char>| u32_field(t)),
                amount: read_opt(field_at(rec.deep_view(), cols.3 as int), |t: Seq<char>| i64_field(t)),
            }),
            None => others_end > rec.len(),
        },
{
    if others_end > rec.len() {
        return None;
    }
    let (a, b, c, d) = cols;
    let op_type = match read_column(rec, a) {
        Some(f) => parse_operation(f),
        None => None,
    };
    let client = match read_column(rec, b) {
        Some(f) => match parse_unsigned(f, 0xffff) {
            Some(v) => Some(v as u16),
            None => None,
        },
        None => None,
    };
    let tx = match read_column(rec, c) {
        Some(f) => match parse_unsigned(f, 0xffff_ffff) {
            Some(v) => Some(v as u32),
            None => None,
        },
        None => None,
    };
    let amount = match read_column(rec, d) {
        Some(f) => parse_amount(f),
        None => None,
    };
    Some(Input { op_type, client, tx, amount })
}

/// Reads the records of a CSV text as rows against its first record, the
/// header. A row that cannot be read is `None`.
pub fn decode_records(records: &Vec<Vec<Vec<char>>>) -> (r: Vec<Option<Input>>)
    ensures
        r@ == decode_all(records.deep_view()),
{
    let mut out: Vec<Option<Input>> = Vec::new();
    if records.len() == 0 {
        assert(out@ =~= decode_all(records.deep_view()));
        return out;
    }
    let ghost rv = records.deep_view();
    let cols = header_columns(&records[0]);
    let others_end = other_columns_end(&records[0]);
    let mut i: usize = 1;
    while i < records.len()
        invariant
            1 <= i <= records.len(),
            rv == records.deep_view(),
            rv[0] == records@[0].deep_view(),
            match cols {
                Some((a, b, c, d)) => column_of(rv[0], "type"@) == Some(a as int) && column_of(
                    rv[0],
                    "client"@,
                ) == Some(b as int) && column_of(rv[0], "tx"@) == Some(c as int) && column_of(
                    rv[0],
                    "amount"@,
                ) == Some(d as int),
                None => column_of(rv[0], "type"@) is None || column_of(rv[0], "client"@) is None
                    || column_of(rv[0], "tx"@) is None || column_of(rv[0], "amount"@) is None,
            },
            others_end <= rv[0].len(),
            forall|j: int| others_end <= j < rv[0].len() ==> is_field_name(#[trigger] rv[0][j]),
            others_end > 0 ==> !is_field_name(rv[0][others_end - 1]),
            out@.len() == i - 1,
            forall|j: int| 0 <= j < i - 1 ==> #[trigger] out@[j] == decode_row(rv[0], rv[j + 1]),
        decreases records.len() - i,
    {
        let row = match cols {
            Some(cols) => decode_fields(&records[i], cols, others_end),
            None => None,
        };
        assert(rv[i as int] == records@[i as int].deep_view());
        proof {
            let h = rv[0];
            let rec = rv[i as int];
            if others_end <= rec.len() {
                assert forall|j: int| 0 <= j < h.len() && !is_field_name(#[trigger] h[j]) implies j
                    < rec.len() by {
                    if j >= others_end {
                        assert(is_field_name(h[j]));
                    }
                }
            } else {
                assert(!is_field_name(h[others_end - 1]));
            }
        }
        out.push(row);
        i += 1;
    }
    assert(out@ =~= decode_all(rv));
    out
}

} // verus!
