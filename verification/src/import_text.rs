//! Reading the legacy workbook's text: start times such as
//! `21:00ET/10:00JST`, month-day pairs such as `3-28(US)/3-29(JP)`, and
//! slugs made from display names.
use vstd::prelude::*;

use crate::performer::{slug_char, valid_slug};
use crate::seqs::{first_where, indices, lemma_first_where_at, lemma_first_where_none};
use crate::show::{index_of_char, lemma_two_digits};
use crate::text::{
    ascii_lower, ascii_lower_chars, ascii_lower_seq, chars_of, digits_value, is_digit, is_space,
    is_space_char, parse_unsigned, parse_unsigned_range, trim_end, clock_text, two_digits, all_digits, decimal,
    lemma_decimal_digits,
};

verus! {

// ---------------------------------------------------------------------
// start times
// ---------------------------------------------------------------------

/// `et` (in any ASCII case) starts at position `k`.
pub open spec fn et_at(s: Seq<char>) -> spec_fn(int) -> bool {
    |k: int| ascii_lower(s[k]) == 'e' && ascii_lower(s[k + 1]) == 't'
}

/// Position of the first `et`, in any ASCII case.
pub open spec fn find_et(s: Seq<char>) -> Option<int> {
    first_where(indices(if s.len() > 0 { (s.len() - 1) as nat } else { 0 }), et_at(s))
}

pub open spec fn digit_or_colon(c: char) -> bool {
    is_digit(c) || c == ':'
}

/// Start of the run of digits and colons that ends `s`.
pub open spec fn clock_run_start(s: Seq<char>) -> int
    decreases s.len(),
{
    if s.len() > 0 && digit_or_colon(s.last()) {
        clock_run_start(s.drop_last())
    } else {
        s.len() as int
    }
}

/// Hour and minute from `H:M` or from compact `HMM`/`HHMM`, each part a
/// `u32` as `str::parse` reads it.
pub open spec fn clock_parts(t: Seq<char>) -> Option<(nat, nat)> {
    if t.len() == 0 {
        None
    } else {
        match index_of_char(t, ':') {
            Some(i) => match (
                parse_unsigned(t.subrange(0, i), 0xffff_ffff),
                parse_unsigned(t.subrange(i + 1, t.len() as int), 0xffff_ffff),
            ) {
                (Some(h), Some(m)) => Some((h, m)),
                _ => None,
            },
            None => if t.len() < 3 {
                None
            } else {
                match (
                    parse_unsigned(t.subrange(0, t.len() - 2), 0xffff_ffff),
                    parse_unsigned(t.subrange(t.len() - 2, t.len() as int), 0xffff_ffff),
                ) {
                    (Some(h), Some(m)) => Some((h, m)),
                    _ => None,
                }
            },
        }
    }
}

/// The ET start time a time cell's text gives: the digits and colons just
/// before the first `ET` (whitespace between them allowed), as `(hour,
/// minute)` with hour at most 24 and minute at most 59.
pub open spec fn time_of_text(s: Seq<char>) -> Option<(u8, u8)> {
    match find_et(s) {
        None => None,
        Some(e) => {
            let p = trim_end(s.subrange(0, e));
            let t = p.subrange(clock_run_start(p), p.len() as int);
            match clock_parts(t) {
                Some((h, m)) => if h <= 24 && m <= 59 {
                    Some((h as u8, m as u8))
                } else {
                    None
                },
                None => None,
            }
        },
    }
}

proof fn lemma_trim_end_prefix(s: Seq<char>, k: int)
    requires
        0 <= k <= s.len(),
        forall|j: int| k <= j < s.len() ==> is_space(#[trigger] s[j]),
        k == 0 || !is_space(s[k - 1]),
    ensures
        trim_end(s) == s.subrange(0, k),
    decreases s.len() - k,
{
    if k == s.len() {
        assert(s.subrange(0, k) =~= s);
    } else {
        let t = s.drop_last();
        assert forall|j: int| k <= j < t.len() implies is_space(#[trigger] t[j]) by {
            assert(t[j] == s[j]);
        }
        lemma_trim_end_prefix(t, k);
        assert(t.subrange(0, k) =~= s.subrange(0, k));
    }
}

proof fn lemma_clock_run_start(s: Seq<char>, k: int)
    requires
        0 <= k <= s.len(),
        forall|j: int| k <= j < s.len() ==> digit_or_colon(#[trigger] s[j]),
        k == 0 || !digit_or_colon(s[k - 1]),
    ensures
        clock_run_start(s) == k,
    decreases s.len() - k,
{
    if k < s.len() {
        let t = s.drop_last();
        assert forall|j: int| k <= j < t.len() implies digit_or_colon(#[trigger] t[j]) by {
            assert(t[j] == s[j]);
        }
        if k > 0 {
            assert(t[k - 1] == s[k - 1]);
        }
        lemma_clock_run_start(t, k);
    }
}

fn clock_parts_exec(v: &Vec<char>, lo: usize, hi: usize) -> (r: Option<(u32, u32)>)
    requires
        lo <= hi <= v@.len(),
    ensures
        match clock_parts(v@.subrange(lo as int, hi as int)) {
            Some((h, m)) => r == Some((h as u32, m as u32)),
            None => r is None,
        },
{
    let ghost t = v@.subrange(lo as int, hi as int);
    if lo == hi {
        return None;
    }
    let mut i = lo;
    while i < hi && v[i] != ':'
        invariant
            lo <= i <= hi,
            hi <= v@.len(),
            t == v@.subrange(lo as int, hi as int),
            forall|j: int| lo <= j < i ==> v@[j] != ':',
        decreases hi - i,
    {
        i = i + 1;
    }
    proof {
        lemma_index_of_char_range(t, i - lo);
    }
    if i < hi {
        let h = parse_unsigned_range(v, lo, i, 0xffff_ffff);
        let m = parse_unsigned_range(v, i + 1, hi, 0xffff_ffff);
        assert(t.subrange(0, i - lo) =~= v@.subrange(lo as int, i as int));
        assert(t.subrange(i - lo + 1, t.len() as int) =~= v@.subrange(i + 1, hi as int));
        match (h, m) {
            (Some(h), Some(m)) => Some((h, m)),
            _ => None,
        }
    } else {
        if hi - lo < 3 {
            return None;
        }
        let split = hi - 2;
        let h = parse_unsigned_range(v, lo, split, 0xffff_ffff);
        let m = parse_unsigned_range(v, split, hi, 0xffff_ffff);
        assert(t.subrange(0, t.len() - 2) =~= v@.subrange(lo as int, split as int));
        assert(t.subrange(t.len() - 2, t.len() as int) =~= v@.subrange(split as int, hi as int));
        match (h, m) {
            (Some(h), Some(m)) => Some((h, m)),
            _ => None,
        }
    }
}

proof fn lemma_index_of_char_range(t: Seq<char>, k: int)
    requires
        0 <= k <= t.len(),
        forall|j: int| 0 <= j < k ==> t[j] != ':',
        k == t.len() || t[k] == ':',
    ensures
        k < t.len() ==> index_of_char(t, ':') == Some(k),
        k == t.len() ==> index_of_char(t, ':') is None,
{
    crate::show::lemma_index_of_char(t, ':');
    match index_of_char(t, ':') {
        Some(f) => {
            if f < k {
                assert(t[f] != ':');
            }
            if f > k && k < t.len() {
                assert(t[k] == ':');
            }
        },
        None => {
            if k < t.len() {
                assert(t[k] != ':');
            }
        },
    }
}

/// Parses an ET wall time from a time cell's text, such as
/// `21:00ET/10:00JST`, `0100ET/16:00JST` or `21:30 ET / 10:30 JST`. The
/// hour is not normalized: it may be 24.
pub fn parse_time(s: &str) -> (r: Option<(u8, u8)>)
    ensures
        r == time_of_text(s@),
{
    let v = chars_of(s);
    let n = v.len();
    // locate the first "et", in any ASCII case
    let ghost pos = indices(if n > 0 { (n - 1) as nat } else { 0 });
    let ghost pred = et_at(v@);
    let mut e: usize = 0;
    while n > 0 && e < n - 1 && !(ascii_lower_char_is(v[e], 'e') && ascii_lower_char_is(v[e + 1], 't'))
        invariant
            n == v@.len(),
            v@ == s@,
            pos == indices(if n > 0 { (n - 1) as nat } else { 0 }),
            pred == et_at(v@),
            e <= n,
            forall|j: int| 0 <= j < e ==> !pred(#[trigger] pos[j]),
        decreases n - e,
    {
        assert(pos[e as int] == e);
        e = e + 1;
    }
    if n == 0 || e >= n - 1 {
        proof {
            assert forall|j: int| 0 <= j < pos.len() implies !pred(#[trigger] pos[j]) by {}
            lemma_first_where_none(pos, pred);
        }
        return None;
    }
    assert(pos[e as int] == e);
    proof {
        lemma_first_where_at(pos, pred, e as int);
    }
    // the prefix before "et", without trailing whitespace
    let ghost prefix = v@.subrange(0, e as int);
    let mut end = e;
    while end > 0 && is_space_char(v[end - 1])
        invariant
            end <= e,
            e <= v@.len(),
            prefix == v@.subrange(0, e as int),
            forall|j: int| end <= j < e ==> is_space(#[trigger] v@[j]),
        decreases end,
    {
        end = end - 1;
    }
    proof {
        assert forall|j: int| end <= j < prefix.len() implies is_space(#[trigger] prefix[j]) by {
            assert(prefix[j] == v@[j]);
        }
        if end > 0 {
            assert(prefix[end - 1] == v@[end - 1]);
        }
        lemma_trim_end_prefix(prefix, end as int);
        assert(prefix.subrange(0, end as int) =~= v@.subrange(0, end as int));
    }
    let ghost p = v@.subrange(0, end as int);
    let mut start = end;
    while start > 0 && (('0' <= v[start - 1] && v[start - 1] <= '9') || v[start - 1] == ':')
        invariant
            start <= end,
            end <= v@.len(),
            p == v@.subrange(0, end as int),
            forall|j: int| start <= j < end ==> digit_or_colon(#[trigger] v@[j]),
        decreases start,
    {
        start = start - 1;
    }
    proof {
        assert forall|j: int| start <= j < p.len() implies digit_or_colon(#[trigger] p[j]) by {
            assert(p[j] == v@[j]);
        }
        if start > 0 {
            assert(p[start - 1] == v@[start - 1]);
        }
        lemma_clock_run_start(p, start as int);
        assert(p.subrange(start as int, p.len() as int) =~= v@.subrange(start as int, end as int));
    }
    match clock_parts_exec(&v, start, end) {
        Some((h, m)) => {
            if h > 24 || m > 59 {
                None
            } else {
                Some((h as u8, m as u8))
            }
        },
        None => None,
    }
}

/// The start times `parse_time` reads have an hour of at most 24 and a
/// minute of at most 59; a text without `ET` (in any ASCII case) gives
/// none; and `HH:MM` or `H:MM` (hour up to 24, with or without a leading
/// zero) followed by `ET` and anything reads as that time.
pub proof fn lemma_parse_time_laws(s: Seq<char>, hh: nat, mm: nat, t: Seq<char>)
    ensures
        time_of_text(s) matches Some((h, m)) ==> h <= 24 && m <= 59,
        (forall|k: int| 0 <= k < s.len() - 1 ==> !(#[trigger] et_at(s)(k))) ==> time_of_text(s) is None,
        hh <= 24 && mm <= 59 ==> time_of_text(clock_text(hh, mm) + seq!['E', 'T'] + t) == Some(
            (hh as u8, mm as u8),
        ),
        hh <= 24 && mm <= 59 ==> time_of_text(decimal(hh) + seq![':'] + two_digits(mm) + seq!['E', 'T'] + t)
            == Some((hh as u8, mm as u8)),
{
    let pos = indices(if s.len() > 0 { (s.len() - 1) as nat } else { 0 });
    if forall|k: int| 0 <= k < s.len() - 1 ==> !(#[trigger] et_at(s)(k)) {
        assert forall|j: int| 0 <= j < pos.len() implies !(#[trigger] et_at(s)(pos[j])) by {
            assert(pos[j] == j);
        }
        lemma_first_where_none(pos, et_at(s));
    }
    if hh <= 24 && mm <= 59 {
        lemma_clock_round_trip(hh, mm, t);
    }
}

proof fn lemma_clock_round_trip(hh: nat, mm: nat, t: Seq<char>)
    requires
        hh <= 24,
        mm <= 59,
    ensures
        time_of_text(clock_text(hh, mm) + seq!['E', 'T'] + t) == Some((hh as u8, mm as u8)),
        time_of_text(decimal(hh) + seq![':'] + two_digits(mm) + seq!['E', 'T'] + t) == Some((hh as u8, mm as u8)),
{
    lemma_two_digits(hh);
    lemma_two_digits(mm);
    lemma_hour_text_round_trip(two_digits(hh), hh, mm, t);
    assert(clock_text(hh, mm) == two_digits(hh) + seq![':'] + two_digits(mm));
    lemma_decimal_digits(hh);
    if hh >= 10 {
        lemma_decimal_digits(hh / 10);
        assert(hh / 10 < 10);
    }
    lemma_hour_text_round_trip(decimal(hh), hh, mm, t);
}

/// An hour of one or two digits, `:`, two minute digits, then `ET` and
/// anything, reads as that time.
proof fn lemma_hour_text_round_trip(ht: Seq<char>, hh: nat, mm: nat, t: Seq<char>)
    requires
        1 <= ht.len() <= 2,
        all_digits(ht),
        digits_value(ht) == hh,
        hh <= 24,
        mm <= 59,
    ensures
        time_of_text(ht + seq![':'] + two_digits(mm) + seq!['E', 'T'] + t) == Some((hh as u8, mm as u8)),
{
    lemma_two_digits(mm);
    let c = ht + seq![':'] + two_digits(mm);
    let s = c + seq!['E', 'T'] + t;
    let L = c.len() as int;
    let h = ht.len() as int;
    assert(c[h] == ':');
    assert forall|k: int| 0 <= k < L implies digit_or_colon(#[trigger] c[k]) && c[k] == s[k] by {
        if k < h {
            assert(c[k] == ht[k]);
        } else if k > h {
            assert(c[k] == two_digits(mm)[k - h - 1]);
        }
    }
    assert(s[L] == 'E' && s[L + 1] == 'T');
    let pos = indices((s.len() - 1) as nat);
    assert forall|j: int| 0 <= j < L implies !(#[trigger] et_at(s)(pos[j])) by {
        assert(pos[j] == j);
        assert(digit_or_colon(s[j]));
    }
    assert(pos[L] == L);
    assert(et_at(s)(pos[L]));
    lemma_first_where_at(pos, et_at(s), L);
    assert(s.subrange(0, L) =~= c);
    crate::text::lemma_trim_unchanged(c);
    lemma_clock_run_start(c, 0);
    assert(c.subrange(0, L) =~= c);
    assert forall|k: int| 0 <= k < h implies #[trigger] c[k] != ':' by {
        assert(c[k] == ht[k]);
    }
    lemma_index_of_char_range(c, h);
    assert(c.subrange(0, h) =~= ht);
    assert(c.subrange(h + 1, L) =~= two_digits(mm));
}

fn ascii_lower_char_is(c: char, lower: char) -> (r: bool)
    ensures
        r == (ascii_lower(c) == lower),
{
    crate::text::ascii_lower_char(c) == lower
}

// ---------------------------------------------------------------------
// month and day
// ---------------------------------------------------------------------

/// End of the run of at most two digits that starts at `i`.
pub open spec fn two_digit_run_end(s: Seq<char>, i: int) -> int {
    if 0 <= i < s.len() && is_digit(s[i]) {
        if i + 1 < s.len() && is_digit(s[i + 1]) {
            i + 2
        } else {
            i + 1
        }
    } else {
        i
    }
}

/// The first `M-D` or `M/D` at or after position `i`: a run of one or two
/// digits (the month, 1 to 12), `-` or `/`, a run of one or two digits (the
/// day, 1 to 31). A run that does not qualify is skipped whole.
pub open spec fn month_day_from(s: Seq<char>, i: int) -> Option<(nat, nat)>
    decreases s.len() - i,
{
    if i < 0 || i >= s.len() {
        None
    } else if !is_digit(s[i]) {
        month_day_from(s, i + 1)
    } else {
        let j = two_digit_run_end(s, i);
        if j < s.len() && (s[j] == '-' || s[j] == '/') {
            let k = two_digit_run_end(s, j + 1);
            if k > j + 1 {
                let month = digits_value(s.subrange(i, j));
                let day = digits_value(s.subrange(j + 1, k));
                if 1 <= month <= 12 && 1 <= day <= 31 {
                    Some((month, day))
                } else {
                    month_day_from(s, j)
                }
            } else {
                month_day_from(s, j)
            }
        } else {
            month_day_from(s, j)
        }
    }
}

/// The first month-day pair in a text.
pub open spec fn month_day_of(s: Seq<char>) -> Option<(nat, nat)> {
    month_day_from(s, 0)
}

/// A month-day found in a text has a month in 1..=12 and a day in 1..=31.
pub proof fn lemma_month_day_from_bounds(s: Seq<char>, i: int)
    ensures
        month_day_from(s, i) matches Some((m, d)) ==> 1 <= m <= 12 && 1 <= d <= 31,
    decreases s.len() - i,
{
    if 0 <= i < s.len() {
        if !is_digit(s[i]) {
            lemma_month_day_from_bounds(s, i + 1);
        } else {
            let j = two_digit_run_end(s, i);
            lemma_month_day_from_bounds(s, j);
        }
    }
}

/// A text without `-` and `/` holds no month-day from position `i` on.
proof fn lemma_month_day_needs_separator(s: Seq<char>, i: int)
    requires
        forall|k: int| 0 <= k < s.len() ==> (#[trigger] s[k]) != '-' && s[k] != '/',
    ensures
        month_day_from(s, i) is None,
    decreases s.len() - i,
{
    if 0 <= i < s.len() {
        if !is_digit(s[i]) {
            lemma_month_day_needs_separator(s, i + 1);
        } else {
            let j = two_digit_run_end(s, i);
            lemma_month_day_needs_separator(s, j);
        }
    }
}

/// The decimal text of a number from 1 to 99: one digit below 10, two
/// from 10.
proof fn lemma_small_decimal(n: nat)
    requires
        1 <= n <= 99,
    ensures
        decimal(n).len() == (if n < 10 { 1int } else { 2int }),
        all_digits(decimal(n)),
        digits_value(decimal(n)) == n,
{
    lemma_decimal_digits(n);
    if n >= 10 {
        lemma_decimal_digits(n / 10);
        assert(n / 10 < 10);
    }
}

/// The month-days `parse_month_day` reads have a month in 1..=12 and a day
/// in 1..=31; a text with neither `-` nor `/` gives none; and `M-D` or
/// `M/D` (month and day in range, without leading zeros) followed by
/// anything that does not start with a digit reads as that month-day.
pub proof fn lemma_parse_month_day_laws(s: Seq<char>, m: nat, d: nat, t: Seq<char>)
    ensures
        month_day_of(s) matches Some((a, b)) ==> 1 <= a <= 12 && 1 <= b <= 31,
        (forall|k: int| 0 <= k < s.len() ==> (#[trigger] s[k]) != '-' && s[k] != '/') ==> month_day_of(s) is None,
        1 <= m <= 12 && 1 <= d <= 31 && (t.len() == 0 || !is_digit(t[0])) ==> month_day_of(
            decimal(m) + seq!['-'] + decimal(d) + t,
        ) == Some((m, d)),
        1 <= m <= 12 && 1 <= d <= 31 && (t.len() == 0 || !is_digit(t[0])) ==> month_day_of(
            decimal(m) + seq!['/'] + decimal(d) + t,
        ) == Some((m, d)),
{
    lemma_month_day_from_bounds(s, 0);
    if forall|k: int| 0 <= k < s.len() ==> (#[trigger] s[k]) != '-' && s[k] != '/' {
        lemma_month_day_needs_separator(s, 0);
    }
    if 1 <= m <= 12 && 1 <= d <= 31 && (t.len() == 0 || !is_digit(t[0])) {
        lemma_month_day_round_trip(m, d, '-', t);
        lemma_month_day_round_trip(m, d, '/', t);
    }
}

proof fn lemma_month_day_round_trip(m: nat, d: nat, sep: char, t: Seq<char>)
    requires
        1 <= m <= 12,
        1 <= d <= 31,
        sep == '-' || sep == '/',
        t.len() == 0 || !is_digit(t[0]),
    ensures
        month_day_of(decimal(m) + seq![sep] + decimal(d) + t) == Some((m, d)),
{
    let a = decimal(m);
    let b = decimal(d);
    let x = a + seq![sep] + b + t;
    lemma_small_decimal(m);
    lemma_small_decimal(d);
    let j = a.len() as int;
    let k = j + 1 + b.len();
    assert forall|q: int| 0 <= q < j implies #[trigger] x[q] == a[q] by {}
    assert(x[j] == sep);
    assert forall|q: int| j + 1 <= q < k implies #[trigger] x[q] == b[q - j - 1] by {}
    assert(is_digit(x[0]));
    assert(two_digit_run_end(x, 0) == j) by {
        if j == 1 {
            assert(!is_digit(x[1]));
        } else {
            assert(is_digit(x[1]));
        }
    }
    assert(two_digit_run_end(x, j + 1) == k) by {
        assert(is_digit(x[j + 1]));
        if b.len() == 1 {
            if j + 2 < x.len() {
                assert(x[j + 2] == t[0]);
            }
        } else {
            assert(is_digit(x[j + 2]));
        }
    }
    assert(x.subrange(0, j) =~= a);
    assert(x.subrange(j + 1, k) =~= b);
}

fn run_end(v: &Vec<char>, i: usize) -> (r: usize)
    requires
        i <= v@.len(),
    ensures
        r == two_digit_run_end(v@, i as int),
        i <= r <= v@.len(),
{
    if i < v.len() && '0' <= v[i] && v[i] <= '9' {
        if i + 1 < v.len() && '0' <= v[i + 1] && v[i + 1] <= '9' {
            i + 2
        } else {
            i + 1
        }
    } else {
        i
    }
}

/// The value of one or two decimal digits.
fn small_digits_value(v: &Vec<char>, lo: usize, hi: usize) -> (r: u32)
    requires
        lo < hi <= v@.len(),
        hi <= lo + 2,
        forall|j: int| lo <= j < hi ==> is_digit(#[trigger] v@[j]),
    ensures
        r == digits_value(v@.subrange(lo as int, hi as int)),
{
    let d0 = (v[lo] as u32) - ('0' as u32);
    let ghost one = v@.subrange(lo as int, lo + 1);
    assert(one.drop_last().len() == 0);
    assert(digits_value(one) == d0) by {
        assert(one.last() == v@[lo as int]);
        assert(digits_value(one.drop_last()) == 0);
    }
    if hi == lo + 1 {
        d0
    } else {
        let d1 = (v[lo + 1] as u32) - ('0' as u32);
        let ghost two = v@.subrange(lo as int, lo + 2);
        assert(two.drop_last() =~= one);
        assert(two.last() == v@[lo + 1]);
        assert(digits_value(two) == digits_value(one) * 10 + d1);
        d0 * 10 + d1
    }
}

/// Extracts the first `M-D` or `M/D` (month 1..=12, day 1..=31) from a
/// text, such as `3-28(US)/3-29(JP)` or `12-24/25`.
pub fn parse_month_day(s: &str) -> (r: Option<(u32, u32)>)
    ensures
        match month_day_of(s@) {
            Some((m, d)) => r == Some((m as u32, d as u32)),
            None => r is None,
        },
{
    let v = chars_of(s);
    let n = v.len();
    let mut i: usize = 0;
    while i < n
        invariant
            n == v@.len(),
            v@ == s@,
            i <= n,
            month_day_of(v@) == month_day_from(v@, i as int),
        decreases n - i,
    {
        if '0' <= v[i] && v[i] <= '9' {
            let j = run_end(&v, i);
            if j < n && (v[j] == '-' || v[j] == '/') {
                let k = run_end(&v, j + 1);
                if k > j + 1 {
                    let month = small_digits_value(&v, i, j);
                    let day = small_digits_value(&v, j + 1, k);
                    if 1 <= month && month <= 12 && 1 <= day && day <= 31 {
                        return Some((month, day));
                    }
                }
            }
            i = j;
        } else {
            i = i + 1;
        }
    }
    None
}

// ---------------------------------------------------------------------
// slugs
// ---------------------------------------------------------------------

/// What `deunicode::deunicode` returns for a text.
pub uninterp spec fn deunicode_of(s: Seq<char>) -> Seq<char>;

pub open spec fn is_ascii_text(s: Seq<char>) -> bool {
    forall|i: int| 0 <= i < s.len() ==> (#[trigger] s[i] as u32) < 128
}

/// Every character is below U+007F (ASCII without DEL).
pub open spec fn below_delete(s: Seq<char>) -> bool {
    forall|i: int| 0 <= i < s.len() ==> (#[trigger] s[i] as u32) < 0x7f
}

/// `deunicode::deunicode`: an ASCII transliteration. Claimed: the result
/// is ASCII, and a text whose characters are all below U+007F comes back
/// unchanged (the function returns such a text as it is); what other
/// texts become is not stated here.
#[verifier::external_body]
fn deunicode_text(s: &str) -> (r: String)
    ensures
        r@ == deunicode_of(s@),
        is_ascii_text(r@),
        below_delete(s@) ==> r@ == s@,
{
    deunicode::deunicode(s)
}

/// The characters a slug is built from, and whether the last one kept is
/// an underscore (true at the start, so no slug begins with one). Letters
/// and digits are kept; every other run of characters becomes one `_`.
pub open spec fn slug_scan(cs: Seq<char>) -> (Seq<char>, bool)
    decreases cs.len(),
{
    if cs.len() == 0 {
        (Seq::empty(), true)
    } else {
        let (out, last_underscore) = slug_scan(cs.drop_last());
        let c = cs.last();
        if ('a' <= c <= 'z') || ('0' <= c <= '9') {
            (out.push(c), false)
        } else if !last_underscore {
            (out.push('_'), true)
        } else {
            (out, true)
        }
    }
}

/// Trailing underscores removed.
pub open spec fn strip_underscores(s: Seq<char>) -> Seq<char>
    decreases s.len(),
{
    if s.len() > 0 && s.last() == '_' {
        strip_underscores(s.drop_last())
    } else {
        s
    }
}

/// A slug as `slugify` makes them: valid, neither starting nor ending
/// with `_`, and without two `_` in a row.
pub open spec fn canonical_slug(s: Seq<char>) -> bool {
    &&& valid_slug(s)
    &&& s[0] != '_'
    &&& s.last() != '_'
    &&& forall|i: int, j: int|
        0 <= i && j == i + 1 && j < s.len() && #[trigger] s[i] == '_' ==> #[trigger] s[j] != '_'
}

/// The slug made from an ASCII transliteration, if any.
pub open spec fn slug_of_text(t: Seq<char>) -> Option<Seq<char>> {
    let s = strip_underscores(slug_scan(ascii_lower_seq(t)).0);
    if s.len() == 0 {
        None
    } else {
        Some(s)
    }
}

/// The slug `slugify` makes from a display name, if any.
pub open spec fn slug_of(name: Seq<char>) -> Option<Seq<char>> {
    slug_of_text(deunicode_of(name))
}

proof fn lemma_strip_underscores(s: Seq<char>, k: int)
    requires
        0 <= k <= s.len(),
        forall|j: int| k <= j < s.len() ==> #[trigger] s[j] == '_',
        k == 0 || s[k - 1] != '_',
    ensures
        strip_underscores(s) == s.subrange(0, k),
    decreases s.len() - k,
{
    if k == s.len() {
        assert(s.subrange(0, k) =~= s);
    } else {
        let t = s.drop_last();
        assert forall|j: int| k <= j < t.len() implies #[trigger] t[j] == '_' by {
            assert(t[j] == s[j]);
        }
        if k > 0 {
            assert(t[k - 1] == s[k - 1]);
        }
        lemma_strip_underscores(t, k);
        assert(t.subrange(0, k) =~= s.subrange(0, k));
    }
}

/// The slug made from text already transliterated to ASCII: lowercase,
/// letters and digits kept, every other run of characters one `_`, no `_`
/// at either end. `None` when nothing is left.
pub fn slug_of_ascii(text: &str) -> (r: Option<String>)
    ensures
        match slug_of_text(text@) {
            Some(s) => r matches Some(x) && x@ == s,
            None => r is None,
        },
{
    let chars = chars_of(text);
    let lower = ascii_lower_chars(&chars);
    let mut out: Vec<char> = Vec::new();
    let mut last_underscore = true;
    let mut i: usize = 0;
    while i < lower.len()
        invariant
            i <= lower@.len(),
            (out@, last_underscore) == slug_scan(lower@.subrange(0, i as int)),
        decreases lower@.len() - i,
    {
        let ghost pre = lower@.subrange(0, i + 1);
        assert(pre.drop_last() =~= lower@.subrange(0, i as int));
        let c = lower[i];
        if ('a' <= c && c <= 'z') || ('0' <= c && c <= '9') {
            out.push(c);
            last_underscore = false;
        } else if !last_underscore {
            out.push('_');
            last_underscore = true;
        }
        i = i + 1;
    }
    assert(lower@.subrange(0, i as int) =~= lower@);
    let mut end = out.len();
    while end > 0 && out[end - 1] == '_'
        invariant
            end <= out@.len(),
            forall|j: int| end <= j < out@.len() ==> #[trigger] out@[j] == '_',
        decreases end,
    {
        end = end - 1;
    }
    proof {
        lemma_strip_underscores(out@, end as int);
    }
    if end == 0 {
        None
    } else {
        let s = crate::text::string_from_range(&out, 0, end);
        Some(s)
    }
}

/// Converts a display name into a slug: transliterated to ASCII (by
/// `deunicode`), then as `slug_of_ascii` makes it. `None` when nothing is
/// left. A name that is already a canonical slug is its own slug.
pub fn slugify(name: &str) -> (r: Option<String>)
    ensures
        match slug_of(name@) {
            Some(s) => r matches Some(x) && x@ == s,
            None => r is None,
        },
        canonical_slug(name@) ==> (r matches Some(x) && x@ == name@),
        below_delete(name@) ==> slug_of(name@) == slug_of_text(name@),
        r is None <==> forall|i: int| 0 <= i < deunicode_of(name@).len() ==> !ascii_alnum(#[trigger] deunicode_of(name@)[i]),
{
    let ascii = deunicode_text(name);
    proof {
        lemma_slug_none(deunicode_of(name@));
        if canonical_slug(name@) {
            lemma_canonical_fixed(name@);
        }
    }
    slug_of_ascii(ascii.as_str())
}

proof fn lemma_slug_scan_chars(cs: Seq<char>)
    ensures
        forall|i: int| 0 <= i < slug_scan(cs).0.len() ==> slug_char(#[trigger] slug_scan(cs).0[i]),
        slug_scan(cs).1 <==> (slug_scan(cs).0.len() == 0 || slug_scan(cs).0.last() == '_'),
        slug_scan(cs).0.len() > 0 ==> slug_scan(cs).0[0] != '_',
        forall|i: int, j: int|
            0 <= i && j == i + 1 && j < slug_scan(cs).0.len() && #[trigger] slug_scan(cs).0[i] == '_'
                ==> #[trigger] slug_scan(cs).0[j] != '_',
    decreases cs.len(),
{
    if cs.len() > 0 {
        lemma_slug_scan_chars(cs.drop_last());
        let prev = slug_scan(cs.drop_last()).0;
        let out = slug_scan(cs).0;
        assert forall|i: int, j: int|
            0 <= i && j == i + 1 && j < out.len() && #[trigger] out[i] == '_' implies #[trigger] out[j]
                != '_' by {
            if j < prev.len() {
                assert(out[i] == prev[i] && out[j] == prev[j]);
            } else {
                assert(i == prev.len() - 1 && out[i] == prev.last());
            }
        }
        if out.len() > 0 && prev.len() > 0 {
            assert(out[0] == prev[0]);
        }
    }
}

proof fn lemma_strip_chars(s: Seq<char>)
    ensures
        strip_underscores(s).len() <= s.len(),
        forall|i: int| 0 <= i < strip_underscores(s).len() ==> #[trigger] strip_underscores(s)[i] == s[i],
        strip_underscores(s).len() > 0 ==> strip_underscores(s).last() != '_',
    decreases s.len(),
{
    if s.len() > 0 && s.last() == '_' {
        lemma_strip_chars(s.drop_last());
    }
}

/// Every slug `slugify` makes is canonical, so in particular valid.
pub proof fn lemma_slugify_valid(name: Seq<char>)
    ensures
        slug_of(name) matches Some(s) ==> canonical_slug(s) && valid_slug(s),
{
    let cs = ascii_lower_seq(deunicode_of(name));
    let out = slug_scan(cs).0;
    lemma_slug_scan_chars(cs);
    lemma_strip_chars(out);
    let s = strip_underscores(out);
    if s.len() > 0 {
        assert forall|i: int, j: int|
            0 <= i && j == i + 1 && j < s.len() && #[trigger] s[i] == '_' implies #[trigger] s[j] != '_' by {
            assert(s[i] == out[i] && s[j] == out[j]);
        }
        assert(s[0] == out[0]);
    }
}

/// An ASCII letter, in either case, or an ASCII digit.
pub open spec fn ascii_alnum(c: char) -> bool {
    ('a' <= c <= 'z') || ('A' <= c <= 'Z') || ('0' <= c <= '9')
}

proof fn lemma_scan_empty(cs: Seq<char>)
    ensures
        slug_scan(cs).0.len() == 0 <==> forall|i: int|
            0 <= i < cs.len() ==> !(('a' <= #[trigger] cs[i] <= 'z') || ('0' <= cs[i] <= '9')),
    decreases cs.len(),
{
    if cs.len() > 0 {
        let t = cs.drop_last();
        lemma_scan_empty(t);
        lemma_slug_scan_chars(t);
        assert forall|i: int| 0 <= i < t.len() implies #[trigger] t[i] == cs[i] by {}
        if slug_scan(cs).0.len() == 0 {
            assert forall|i: int| 0 <= i < cs.len() implies !(('a' <= #[trigger] cs[i] <= 'z') || ('0' <= cs[i] <= '9')) by {
                if i < t.len() {
                    assert(t[i] == cs[i]);
                } else {
                    assert(cs[i] == cs.last());
                }
            }
        } else {
            if slug_scan(t).0.len() == 0 {
                let c = cs.last();
                assert(('a' <= c <= 'z') || ('0' <= c <= '9'));
                assert(cs[cs.len() - 1] == c);
            } else {
                let i = choose|i: int| 0 <= i < t.len() && (('a' <= #[trigger] t[i] <= 'z') || ('0' <= t[i] <= '9'));
                assert(cs[i] == t[i]);
            }
        }
    }
}

proof fn lemma_strip_keeps_first(s: Seq<char>)
    requires
        s.len() > 0,
        s[0] != '_',
    ensures
        strip_underscores(s).len() > 0,
    decreases s.len(),
{
    if s.last() == '_' {
        assert(s.len() > 1);
        assert(s.drop_last()[0] == s[0]);
        lemma_strip_keeps_first(s.drop_last());
    }
}

/// No slug is made from a transliteration exactly when it has no ASCII
/// letter or digit.
pub proof fn lemma_slug_none(t: Seq<char>)
    ensures
        slug_of_text(t) is None <==> forall|i: int| 0 <= i < t.len() ==> !ascii_alnum(#[trigger] t[i]),
{
    let cs = ascii_lower_seq(t);
    lemma_scan_empty(cs);
    lemma_slug_scan_chars(cs);
    let out = slug_scan(cs).0;
    assert forall|i: int| 0 <= i < t.len() implies (('a' <= #[trigger] cs[i] <= 'z') || ('0' <= cs[i] <= '9'))
        == ascii_alnum(t[i]) by {
        let c = t[i];
        assert(cs[i] == ascii_lower(c));
        if 'A' <= c <= 'Z' {
            assert(((c as u32) + 32) as char as u32 == (c as u32) + 32);
        }
    }
    if out.len() > 0 {
        lemma_strip_keeps_first(out);
        let i = choose|i: int| 0 <= i < cs.len() && (('a' <= #[trigger] cs[i] <= 'z') || ('0' <= cs[i] <= '9'));
        assert(ascii_alnum(t[i]));
    } else {
        assert(strip_underscores(out) =~= out);
        if exists|i: int| 0 <= i < t.len() && ascii_alnum(#[trigger] t[i]) {
            let i = choose|i: int| 0 <= i < t.len() && ascii_alnum(#[trigger] t[i]);
            assert(('a' <= cs[i] <= 'z') || ('0' <= cs[i] <= '9'));
        }
    }
}

/// Scanning a prefix of a canonical slug keeps it as it is.
proof fn lemma_scan_canonical(s: Seq<char>, k: int)
    requires
        canonical_slug(s),
        0 <= k <= s.len(),
    ensures
        slug_scan(s.subrange(0, k)) == (s.subrange(0, k), k == 0 || s[k - 1] == '_'),
    decreases k,
{
    if k > 0 {
        let pre = s.subrange(0, k);
        assert(pre.drop_last() =~= s.subrange(0, k - 1));
        lemma_scan_canonical(s, k - 1);
        assert(pre.last() == s[k - 1]);
        assert(slug_char(s[k - 1]));
        if s[k - 1] == '_' {
            assert(k - 1 > 0);
            assert(s[k - 2] != '_');
        }
        assert(s.subrange(0, k - 1).push(s[k - 1]) =~= pre);
    }
}

/// A canonical slug is ASCII text below DEL, and the slug made from it
/// is itself.
proof fn lemma_canonical_fixed(s: Seq<char>)
    requires
        canonical_slug(s),
    ensures
        below_delete(s),
        slug_of_text(s) == Some(s),
{
    assert forall|i: int| 0 <= i < s.len() implies (#[trigger] s[i] as u32) < 0x7f by {
        assert(slug_char(s[i]));
    }
    assert forall|i: int| 0 <= i < s.len() implies #[trigger] ascii_lower(s[i]) == s[i] by {
        assert(slug_char(s[i]));
    }
    assert(ascii_lower_seq(s) =~= s);
    lemma_scan_canonical(s, s.len() as int);
    assert(s.subrange(0, s.len() as int) =~= s);
    assert(strip_underscores(s) == s);
}

} // verus!
