//! The account report: a header line, then one line per account.
use std::collections::HashMap;
use vstd::prelude::*;
use vstd::std_specs::iter::IteratorSpec;
use crate::decode::{
    amount_field, digits_valid, digits_value, first_marker_at, is_exponent_marker, max_units,
    pow10, radix_digit,
};
use crate::model::AccountDetails;
use crate::text::{digit_char, digit_to_char, nat_digits, push_nat, push_str, string_from_chars};

verus! {

broadcast use vstd::std_specs::hash::group_hash_axioms;

pub open spec fn abs(v: int) -> int {
    if v < 0 {
        -v
    } else {
        v
    }
}

/// How many of the four decimal digits of `f` (0 < f < 10000) remain once
/// trailing zeros are dropped.
pub open spec fn significant_digits(f: int) -> int {
    if f % 1000 == 0 {
        1
    } else if f % 100 == 0 {
        2
    } else if f % 10 == 0 {
        3
    } else {
        4
    }
}

/// The decimal places of `f` ten-thousandths: nothing for zero, otherwise a
/// point and up to four digits without trailing zeros.
pub open spec fn decimals_text(f: int) -> Seq<char> {
    if f == 0 {
        Seq::empty()
    } else {
        seq!['.'] + seq![
            digit_char(f / 1000),
            digit_char(f / 100 % 10),
            digit_char(f / 10 % 10),
            digit_char(f % 10),
        ].take(significant_digits(f))
    }
}

/// An amount of ten-thousandths in decimal: a sign when negative, the whole
/// units, then the decimal places that are not zero.
pub open spec fn amount_text(v: int) -> Seq<char> {
    (if v < 0 {
        seq!['-']
    } else {
        Seq::empty()
    }) + nat_digits((abs(v) / 10000) as nat) + decimals_text(abs(v) % 10000)
}

pub open spec fn bool_text(b: bool) -> Seq<char> {
    if b {
        "true"@
    } else {
        "false"@
    }
}

pub open spec fn header_text() -> Seq<char> {
    "client, available, held, total, locked"@
}

/// The line of one account, after a line break: client, available, held,
/// total, locked.
pub open spec fn account_line(c: u16, d: AccountDetails) -> Seq<char> {
    seq!['\n'] + nat_digits(c as nat) + seq![','] + amount_text(d.available as int) + seq![',']
        + amount_text(d.held as int) + seq![','] + amount_text(d.total as int) + seq![',']
        + bool_text(d.locked)
}

/// The lines of the given accounts, in the given order.
pub open spec fn lines_text(ks: Seq<u16>, m: Map<u16, AccountDetails>) -> Seq<char>
    decreases ks.len(),
{
    if ks.len() == 0 {
        Seq::empty()
    } else {
        lines_text(ks.drop_last(), m) + account_line(ks.last(), m[ks.last()])
    }
}

/// The last field of an account's line says whether the account is locked:
/// `true` exactly when it is, `false` otherwise, after a comma.
pub proof fn lemma_locked_column(c: u16, d: AccountDetails)
    ensures
        ({
            let l = account_line(c, d);
            &&& d.locked ==> l.len() >= 5 && l.skip(l.len() - 4) == seq!['t', 'r', 'u', 'e'] && l[l.len()
                - 5] == ','
            &&& !d.locked ==> l.len() >= 6 && l.skip(l.len() - 5) == seq!['f', 'a', 'l', 's', 'e']
                && l[l.len() - 6] == ','
        }),
{
    reveal_strlit("true");
    reveal_strlit("false");
    let l = account_line(c, d);
    let pre = seq!['\n'] + nat_digits(c as nat) + seq![','] + amount_text(d.available as int)
        + seq![','] + amount_text(d.held as int) + seq![','] + amount_text(d.total as int) + seq![','];
    assert(l == pre + bool_text(d.locked));
    if d.locked {
        assert(l.skip(l.len() - 4) =~= seq!['t', 'r', 'u', 'e']);
    } else {
        assert(l.skip(l.len() - 5) =~= seq!['f', 'a', 'l', 's', 'e']);
    }
}

/// The decimal digits of a number read back as that number.
pub proof fn lemma_digits_read_back(n: nat)
    ensures
        nat_digits(n).len() > 0,
        digits_valid(nat_digits(n), 10),
        digits_value(nat_digits(n), 10) == n,
    decreases n,
{
    if n >= 10 {
        lemma_digits_read_back(n / 10);
        let s = nat_digits(n);
        assert(s.drop_last() =~= nat_digits(n / 10));
        assert(s.last() == digit_char((n % 10) as int));
        assert(crate::decode::radix_digit(s.last(), 10) == n % 10);
        assert(n == (n / 10) * 10 + n % 10);
        assert(digits_value(s, 10) == digits_value(s.drop_last(), 10) * 10
            + crate::decode::radix_digit(s.last(), 10));
    } else {
        let s = nat_digits(n);
        assert(s.drop_last() =~= Seq::<char>::empty());
        assert(digits_value(s.drop_last(), 10) == 0);
        assert(crate::decode::radix_digit(s.last(), 10) == n);
        assert forall|i: int| 0 <= i < s.len() implies crate::decode::radix_digit(#[trigger] s[i], 10)
            >= 0 by {
            if i < s.len() - 1 {
                assert(s[i] == nat_digits(n / 10)[i]);
            }
        }
    }
}

/// An account's line starts a new line with the client id in decimal, which
/// reads back as the client id, followed by a comma.
pub proof fn lemma_client_column(c: u16, d: AccountDetails)
    ensures
        ({
            let l = account_line(c, d);
            let k = nat_digits(c as nat).len() as int;
            &&& l[0] == '\n'
            &&& l.subrange(1, k + 1) == nat_digits(c as nat)
            &&& digits_value(l.subrange(1, k + 1), 10) == c
            &&& l[k + 1] == ','
        }),
{
    lemma_digits_read_back(c as nat);
    let l = account_line(c, d);
    let k = nat_digits(c as nat).len() as int;
    assert(l.subrange(1, k + 1) =~= nat_digits(c as nat));
}

pub proof fn lemma_pow10_add(a: nat, b: nat)
    ensures
        pow10(a + b) == pow10(a) * pow10(b),
    decreases b,
{
    if b > 0 {
        lemma_pow10_add(a, (b - 1) as nat);
        assert(pow10(a + b) == 10 * pow10((a + b - 1) as nat));
        assert(10 * (pow10(a) * pow10((b - 1) as nat)) == pow10(a) * (10 * pow10((b - 1) as nat)))
            by (nonlinear_arith);
    }
}

/// The value of digits written one after the other.
pub proof fn lemma_digits_value_concat(x: Seq<char>, y: Seq<char>)
    ensures
        digits_value(x + y, 10) == digits_value(x, 10) * pow10(y.len()) + digits_value(y, 10),
    decreases y.len(),
{
    if y.len() == 0 {
        assert(x + y =~= x);
    } else {
        let y2 = y.drop_last();
        lemma_digits_value_concat(x, y2);
        assert((x + y).drop_last() =~= x + y2);
        assert((x + y).last() == y.last());
        let a = digits_value(x, 10);
        let p = pow10(y2.len());
        let b = digits_value(y2, 10);
        assert(pow10(y.len()) == 10 * p);
        assert((a * p + b) * 10 == a * (10 * p) + b * 10) by (nonlinear_arith);
    }
}

/// The decimal places written for `f` ten-thousandths (0 < f < 10000) are a
/// point and digits that read back as `f` once padded to four places.
proof fn lemma_decimals_read_back(f: int)
    requires
        0 < f < 10000,
    ensures
        ({
            let k = significant_digits(f);
            let frac = decimals_text(f).drop_first();
            &&& decimals_text(f).len() == k + 1
            &&& decimals_text(f)[0] == '.'
            &&& 1 <= k <= 4
            &&& frac.len() == k
            &&& digits_valid(frac, 10)
            &&& digits_value(frac, 10) * pow10((4 - k) as nat) == f
            &&& frac.last() != '0'
        }),
{
    let k = significant_digits(f);
    let d1 = f / 1000;
    let d2 = f / 100 % 10;
    let d3 = f / 10 % 10;
    let d4 = f % 10;
    assert(f == 1000 * d1 + 100 * d2 + 10 * d3 + d4 && 0 <= d1 < 10 && 0 <= d2 < 10 && 0 <= d3
        < 10 && 0 <= d4 < 10) by (nonlinear_arith)
        requires
            0 < f < 10000,
            d1 == f / 1000,
            d2 == f / 100 % 10,
            d3 == f / 10 % 10,
            d4 == f % 10,
    ;
    assert((f % 1000 == 0) == (d2 == 0 && d3 == 0 && d4 == 0)) by (nonlinear_arith)
        requires
            f == 1000 * d1 + 100 * d2 + 10 * d3 + d4,
            0 <= d1 < 10 && 0 <= d2 < 10 && 0 <= d3 < 10 && 0 <= d4 < 10,
    ;
    assert((f % 100 == 0) == (d3 == 0 && d4 == 0)) by (nonlinear_arith)
        requires
            f == 1000 * d1 + 100 * d2 + 10 * d3 + d4,
            0 <= d1 < 10 && 0 <= d2 < 10 && 0 <= d3 < 10 && 0 <= d4 < 10,
    ;
    assert((f % 10 == 0) == (d4 == 0)) by (nonlinear_arith)
        requires
            f == 1000 * d1 + 100 * d2 + 10 * d3 + d4,
            0 <= d4 < 10,
    ;
    let four = seq![digit_char(d1), digit_char(d2), digit_char(d3), digit_char(d4)];
    let frac = decimals_text(f).drop_first();
    assert(frac =~= four.take(k));
    assert(radix_digit(four[0], 10) == d1);
    assert(radix_digit(four[1], 10) == d2);
    assert(radix_digit(four[2], 10) == d3);
    assert(radix_digit(four[3], 10) == d4);
    let t1 = four.take(1);
    let t2 = four.take(2);
    let t3 = four.take(3);
    let t4 = four.take(4);
    assert(t1.drop_last() =~= Seq::<char>::empty());
    assert(t2.drop_last() =~= t1);
    assert(t3.drop_last() =~= t2);
    assert(t4.drop_last() =~= t3);
    assert(digits_value(Seq::<char>::empty(), 10) == 0);
    assert(digits_value(t1, 10) == d1);
    assert(digits_value(t2, 10) == d1 * 10 + d2);
    assert(digits_value(t3, 10) == (d1 * 10 + d2) * 10 + d3);
    assert(digits_value(t4, 10) == ((d1 * 10 + d2) * 10 + d3) * 10 + d4);
    reveal_with_fuel(pow10, 4);
    assert(pow10(0) == 1 && pow10(1) == 10 && pow10(2) == 100 && pow10(3) == 1000);
    assert(digits_valid(frac, 10));
    assert(digit_char(0) == '0');
}

/// Every amount in the report reads back, as an amount field, as exactly the
/// balance it was written from.
#[verifier::rlimit(40)]
pub proof fn lemma_amount_text_reads_back(v: int)
    requires
        -max_units() <= v <= max_units(),
    ensures
        amount_field(amount_text(v)) == Some(v),
{
    let m = abs(v);
    let w = m / 10000;
    let f = m % 10000;
    let wd = nat_digits(w as nat);
    lemma_digits_read_back(w as nat);
    let dec = decimals_text(f);
    let body = wd + dec;
    let frac = if f == 0 {
        Seq::<char>::empty()
    } else {
        dec.drop_first()
    };
    let k: int = if f == 0 {
        0
    } else {
        significant_digits(f)
    };
    if f != 0 {
        lemma_decimals_read_back(f);
    }
    assert(digits_valid(frac, 10));
    assert(frac.len() == k);
    // no exponent marker: digits and at most one point
    assert forall|j: int| 0 <= j < body.len() implies !is_exponent_marker(#[trigger] body[j]) by {
        if j < wd.len() {
            assert(radix_digit(wd[j], 10) >= 0);
        } else if j > wd.len() {
            assert(body[j] == frac[j - wd.len() - 1]);
            assert(radix_digit(frac[j - wd.len() - 1], 10) >= 0);
        }
    }
    assert(!exists|j: int| first_marker_at(body, j));
    // the point, if any, right after the whole units
    body.index_of_first_ensures('.');
    if f == 0 {
        assert(body =~= wd);
        assert forall|j: int| 0 <= j < body.len() implies body[j] != '.' by {
            assert(radix_digit(wd[j], 10) >= 0);
        }
        assert(!body.contains('.'));
    } else {
        assert(body[wd.len() as int] == '.');
        let i = body.index_of_first('.')->Some_0;
        if i < wd.len() {
            assert(radix_digit(wd[i], 10) >= 0);
        }
        assert(i == wd.len());
        assert(body.take(i) =~= wd);
        assert(body.skip(i + 1) =~= frac);
    }
    lemma_digits_value_concat(wd, frac);
    lemma_pow10_add(k as nat, (4 - k) as nat);
    reveal_with_fuel(pow10, 5);
    assert(pow10(4) == 10000);
    assert(digits_value(frac, 10) * pow10((4 - k) as nat) == f);
    assert((w * pow10(k as nat) + digits_value(frac, 10)) * pow10((4 - k) as nat) == w * (pow10(
        k as nat,
    ) * pow10((4 - k) as nat)) + digits_value(frac, 10) * pow10((4 - k) as nat)) by (nonlinear_arith);
    assert(w * 10000 + f == m);
    assert((wd + frac).len() == wd.len() + k);
    if v < 0 {
        assert((seq!['-'] + body).drop_first() =~= body);
        assert(amount_text(v) == seq!['-'] + body);
    } else {
        assert(amount_text(v) =~= body);
        assert(radix_digit(wd[0], 10) >= 0);
        assert(body[0] == wd[0]);
    }
}

/// A whole, non-negative amount is written as its number of currency units
/// alone; a negative amount as a minus sign before the text of its magnitude;
/// an amount with a fraction ends in a digit other than zero.
pub proof fn lemma_amount_text_shape(v: int)
    ensures
        v >= 0 && v % 10000 == 0 ==> amount_text(v) == nat_digits((v / 10000) as nat),
        v < 0 ==> amount_text(v) == seq!['-'] + amount_text(-v),
        abs(v) % 10000 != 0 ==> amount_text(v).last() != '0',
{
    if abs(v) % 10000 != 0 {
        lemma_decimals_read_back(abs(v) % 10000);
        let d = decimals_text(abs(v) % 10000);
        assert(d.last() == d.drop_first().last());
    }
    if v >= 0 && v % 10000 == 0 {
        assert(amount_text(v) =~= nat_digits((v / 10000) as nat));
    }
    if v < 0 {
        assert(amount_text(v) =~= seq!['-'] + amount_text(-v));
    }
}

/// Appends the decimal text of an amount of ten-thousandths.
pub fn push_amount(out: &mut Vec<char>, v: i128)
    ensures
        final(out)@ == old(out)@ + amount_text(v as int),
{
    let ghost start = out@;
    let m: u128 = if v < 0 {
        out.push('-');
        if v == i128::MIN {
            170141183460469231731687303715884105728u128
        } else {
            (-v) as u128
        }
    } else {
        v as u128
    };
    assert(m == abs(v as int));
    push_nat(out, m / 10000);
    let f = m % 10000;
    let ghost before = out@;
    if f != 0 {
        let n: usize = if f % 1000 == 0 {
            1
        } else if f % 100 == 0 {
            2
        } else if f % 10 == 0 {
            3
        } else {
            4
        };
        let ds = [
            digit_to_char((f / 1000) as u8),
            digit_to_char((f / 100 % 10) as u8),
            digit_to_char((f / 10 % 10) as u8),
            digit_to_char((f % 10) as u8),
        ];
        out.push('.');
        let mut i: usize = 0;
        while i < n
            invariant
                i <= n <= 4,
                ds@.len() == 4,
                out@ == before + seq!['.'] + ds@.take(i as int),
            decreases n - i,
        {
            assert(ds@.take(i + 1) =~= ds@.take(i as int).push(ds@[i as int]));
            out.push(ds[i]);
            i += 1;
        }
        assert(ds@ =~= seq![
            digit_char((f / 1000) as int),
            digit_char((f / 100 % 10) as int),
            digit_char((f / 10 % 10) as int),
            digit_char((f % 10) as int),
        ]);
    }
    assert(out@ =~= start + amount_text(v as int));
}

/// Appends the line of one account.
pub fn push_account_line(out: &mut Vec<char>, c: u16, d: &AccountDetails)
    ensures
        final(out)@ == old(out)@ + account_line(c, *d),
{
    let ghost start = out@;
    out.push('\n');
    push_nat(out, c as u128);
    out.push(',');
    push_amount(out, d.available);
    out.push(',');
    push_amount(out, d.held);
    out.push(',');
    push_amount(out, d.total);
    out.push(',');
    if d.locked {
        push_str(out, "true");
    } else {
        push_str(out, "false");
    }
    assert(out@ =~= start + account_line(c, *d));
}

/// The keys of a sequence of entries that holds each entry of the map once.
proof fn lemma_entry_keys(m: Map<u16, AccountDetails>, es: Seq<(&u16, &AccountDetails)>, ks: Seq<u16>)
    requires
        es.len() == m.dom().len(),
        m.dom().finite(),
        es.no_duplicates(),
        forall|i: int| 0 <= i < es.len() ==> m.contains_key(*es[i].0) && m[*es[i].0] == *es[i].1,
        forall|k: u16| #[trigger] m.contains_key(k) ==> es.contains((&k, &m[k])),
        ks.len() == es.len(),
        forall|j: int| 0 <= j < ks.len() ==> ks[j] == *es[j].0,
    ensures
        ks.no_duplicates(),
        ks.to_set() == m.dom(),
{
    assert forall|i: int, j: int| 0 <= i < ks.len() && 0 <= j < ks.len() && i != j implies ks[i]
        != ks[j] by {
        if ks[i] == ks[j] {
            assert(es[i] == es[j]);
        }
    }
    assert forall|k: u16| ks.to_set().contains(k) <==> m.dom().contains(k) by {
        if m.contains_key(k) {
            let i = choose|i: int| 0 <= i < es.len() && es[i] == (&k, &m[k]);
            assert(ks[i] == k);
        }
        if ks.to_set().contains(k) {
            let i = choose|i: int| 0 <= i < ks.len() && ks[i] == k;
            assert(m.contains_key(*es[i].0));
        }
    }
    assert(ks.to_set() =~= m.dom());
}

/// The report of the accounts: the header, then the line of each account, in
/// the order the map hands its entries out. Whatever that order, each account
/// has exactly one line.
pub fn format_output(accounts: HashMap<u16, AccountDetails>) -> (s: String)
    ensures
        exists|ks: Seq<u16>|
            {
                &&& ks.no_duplicates()
                &&& ks.to_set() == accounts@.dom()
                &&& s@ == header_text() + lines_text(ks, accounts@)
            },
{
    let mut out: Vec<char> = Vec::new();
    push_str(&mut out, "client, available, held, total, locked");
    let ghost m = accounts@;
    let ghost es = vstd::std_specs::hash::spec_hash_map_iter(&accounts).remaining();
    let ghost mut ks: Seq<u16> = Seq::empty();
    for (k, v) in it: accounts.iter()
        invariant
            m == accounts@,
            it.seq() == es,
            es == vstd::std_specs::hash::spec_hash_map_iter(&accounts).remaining(),
            ks.len() == it.index(),
            forall|j: int| 0 <= j < it.index() ==> ks[j] == *es[j].0,
            out@ == header_text() + lines_text(ks, m),
    {
        assert(m.contains_key(*k) && m[*k] == *v);
        let ghost before = out@;
        push_account_line(&mut out, *k, v);
        proof {
            let ks2 = ks.push(*k);
            assert(ks2.drop_last() =~= ks);
            assert(lines_text(ks2, m) == lines_text(ks, m) + account_line(*k, m[*k]));
            assert(out@ =~= header_text() + lines_text(ks2, m));
            ks = ks2;
        }
    }
    proof {
        lemma_entry_keys(m, es, ks);
    }
    string_from_chars(&out)
}

} // verus!
