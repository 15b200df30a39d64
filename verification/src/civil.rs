//! Calendar arithmetic and org's clock stamps: decimal parsing and
//! padding, the civil-date day count, weekday names, `CLOCK:` stamp
//! bodies, the minutes between two of them, and agenda dates.

use crate::error::VaultError;
use crate::text::{chars_of, find_first, find_first_ws, find_last_ws, first_ws, has_ws, is_ws, last_ws, push_char, push_chars, push_str_chars, slice_chars, split_once, string_of, trim, trim_chars};
use vstd::prelude::*;

verus! {

// ---------------------------------------------------------------
// Decimal digits
// ---------------------------------------------------------------

/// An ASCII decimal digit.
pub open spec fn is_digit(c: char) -> bool {
    '0' <= c && c <= '9'
}

pub open spec fn digit_val(c: char) -> int {
    c as int - '0' as int
}

pub open spec fn all_digits(s: Seq<char>) -> bool {
    forall|i: int| 0 <= i < s.len() ==> is_digit(#[trigger] s[i])
}

/// The value of a run of decimal digits, most significant first.
pub open spec fn digits_value(s: Seq<char>) -> int
    decreases s.len(),
{
    if s.len() == 0 {
        0
    } else {
        digits_value(s.drop_last()) * 10 + digit_val(s.last())
    }
}

/// What `str::parse` makes of `s` for an integer type, before the range
/// check: an optional `+` (and, for a signed type, `-`), then at least
/// one digit and nothing else.
pub open spec fn parse_int(s: Seq<char>, signed: bool) -> Option<int> {
    if s.len() == 0 {
        None
    } else if (s[0] == '+' || s[0] == '-') && s.len() == 1 {
        None
    } else if s[0] == '+' {
        if all_digits(s.drop_first()) {
            Some(digits_value(s.drop_first()))
        } else {
            None
        }
    } else if s[0] == '-' && signed {
        if all_digits(s.drop_first()) {
            Some(-digits_value(s.drop_first()))
        } else {
            None
        }
    } else if all_digits(s) {
        Some(digits_value(s))
    } else {
        None
    }
}

/// `s.parse::<i64>()`.
pub open spec fn parse_i64(s: Seq<char>) -> Option<int> {
    match parse_int(s, true) {
        Some(v) => if i64::MIN <= v <= i64::MAX {
            Some(v)
        } else {
            None
        },
        None => None,
    }
}

/// `s.parse::<u32>()`.
pub open spec fn parse_u32(s: Seq<char>) -> Option<int> {
    match parse_int(s, false) {
        Some(v) => if 0 <= v <= u32::MAX {
            Some(v)
        } else {
            None
        },
        None => None,
    }
}

pub proof fn lemma_digits_value_nonneg(s: Seq<char>)
    requires
        all_digits(s),
    ensures
        digits_value(s) >= 0,
    decreases s.len(),
{
    if s.len() > 0 {
        lemma_digits_value_nonneg(s.drop_last());
    }
}

/// A longer run of digits is worth at least as much as its prefix.
pub proof fn lemma_digits_value_prefix(s: Seq<char>, k: int)
    requires
        all_digits(s),
        0 <= k <= s.len(),
    ensures
        digits_value(s.take(k)) <= digits_value(s),
    decreases s.len() - k,
{
    if k < s.len() {
        lemma_digits_value_prefix(s, k + 1);
        assert(s.take(k + 1).drop_last() =~= s.take(k));
        lemma_digits_value_nonneg(s.take(k));
    } else {
        assert(s.take(k) =~= s);
    }
}

/// The value of the digits `v[lo..hi]`, if they are all digits and the
/// value fits in a `u64`.
fn parse_digits(v: &Vec<char>, lo: usize, hi: usize) -> (r: Option<u64>)
    requires
        lo <= hi <= v.len(),
    ensures
        match r {
            Some(x) => all_digits(v@.subrange(lo as int, hi as int)) && x == digits_value(
                v@.subrange(lo as int, hi as int),
            ),
            None => !all_digits(v@.subrange(lo as int, hi as int)) || digits_value(
                v@.subrange(lo as int, hi as int),
            ) > u64::MAX,
        },
{
    let ghost s = v@.subrange(lo as int, hi as int);
    let mut acc: u64 = 0;
    let mut i = lo;
    while i < hi
        invariant
            lo <= i <= hi <= v.len(),
            s == v@.subrange(lo as int, hi as int),
            all_digits(s.take(i - lo)),
            acc == digits_value(s.take(i - lo)),
        decreases hi - i,
    {
        let c = v[i];
        if !('0' <= c && c <= '9') {
            assert(s[i - lo] == c);
            return None;
        }
        let d: u64 = (c as u32 - '0' as u32) as u64;
        assert(s.take(i - lo + 1).drop_last() =~= s.take(i - lo));
        assert(s.take(i - lo + 1).last() == c);
        match acc.checked_mul(10) {
            Some(a10) => match a10.checked_add(d) {
                Some(a) => {
                    acc = a;
                },
                None => {
                    proof {
                        if all_digits(s) {
                            lemma_digits_value_prefix(s, i - lo + 1);
                        }
                    }
                    return None;
                },
            },
            None => {
                proof {
                    if all_digits(s) {
                        lemma_digits_value_prefix(s, i - lo + 1);
                        lemma_digits_value_nonneg(s.take(i - lo));
                    }
                }
                return None;
            },
        }
        i = i + 1;
        assert(all_digits(s.take(i - lo))) by {
            assert forall|j: int| 0 <= j < i - lo implies is_digit(#[trigger] s.take(i - lo)[j]) by {
                if j < i - lo - 1 {
                    assert(s.take(i - lo)[j] == s.take(i - lo - 1)[j]);
                }
            }
        }
    }
    assert(s.take(hi - lo) =~= s);
    Some(acc)
}

/// `v[lo..hi].parse::<i64>()`.
pub fn parse_i64_chars(v: &Vec<char>, lo: usize, hi: usize) -> (r: Option<i64>)
    requires
        lo <= hi <= v.len(),
    ensures
        match r {
            Some(x) => parse_i64(v@.subrange(lo as int, hi as int)) == Some(x as int),
            None => parse_i64(v@.subrange(lo as int, hi as int)) is None,
        },
{
    let ghost s = v@.subrange(lo as int, hi as int);
    if lo == hi {
        return None;
    }
    let c0 = v[lo];
    if (c0 == '+' || c0 == '-') && hi - lo == 1 {
        return None;
    }
    if c0 == '+' || c0 == '-' {
        assert(s.drop_first() =~= v@.subrange(lo + 1, hi as int));
        match parse_digits(v, lo + 1, hi) {
            Some(m) => {
                proof {
                    lemma_digits_value_nonneg(s.drop_first());
                }
                if c0 == '+' {
                    if m <= 9223372036854775807u64 {
                        Some(m as i64)
                    } else {
                        None
                    }
                } else {
                    if m < 9223372036854775808u64 {
                        Some(-(m as i64))
                    } else if m == 9223372036854775808u64 {
                        Some(i64::MIN)
                    } else {
                        None
                    }
                }
            },
            None => None,
        }
    } else {
        match parse_digits(v, lo, hi) {
            Some(m) => {
                if m <= 9223372036854775807u64 {
                    Some(m as i64)
                } else {
                    None
                }
            },
            None => None,
        }
    }
}

/// `v[lo..hi].parse::<u32>()`.
pub fn parse_u32_chars(v: &Vec<char>, lo: usize, hi: usize) -> (r: Option<u32>)
    requires
        lo <= hi <= v.len(),
    ensures
        match r {
            Some(x) => parse_u32(v@.subrange(lo as int, hi as int)) == Some(x as int),
            None => parse_u32(v@.subrange(lo as int, hi as int)) is None,
        },
{
    let ghost s = v@.subrange(lo as int, hi as int);
    if lo == hi {
        return None;
    }
    let c0 = v[lo];
    if (c0 == '+' || c0 == '-') && hi - lo == 1 {
        return None;
    }
    let start = if c0 == '+' {
        lo + 1
    } else {
        lo
    };
    if c0 == '+' {
        assert(s.drop_first() =~= v@.subrange(lo + 1, hi as int));
    } else {
        assert(s =~= v@.subrange(lo as int, hi as int));
        if c0 == '-' {
            assert(!is_digit(s[0]));
        }
    }
    match parse_digits(v, start, hi) {
        Some(m) => {
            if m <= 4294967295u64 {
                Some(m as u32)
            } else {
                None
            }
        },
        None => None,
    }
}

// ---------------------------------------------------------------
// Decimal formatting
// ---------------------------------------------------------------

pub open spec fn digit_char(d: int) -> char {
    (d + '0' as int) as char
}

/// The decimal digits of `n`, without leading zeros.
pub open spec fn decimal(n: nat) -> Seq<char>
    decreases n,
{
    if n < 10 {
        seq![digit_char(n as int)]
    } else {
        decimal(n / 10).push(digit_char((n % 10) as int))
    }
}

/// `s` left-padded with `0` to at least `w` characters.
pub open spec fn zero_pad(s: Seq<char>, w: int) -> Seq<char> {
    if s.len() < w {
        Seq::new((w - s.len()) as nat, |i: int| '0') + s
    } else {
        s
    }
}

/// `format!("{v:0w$}")` for an integer: the sign counts towards the
/// width, and the zeros go between it and the digits.
pub open spec fn fmt_padded(v: int, w: int) -> Seq<char> {
    if v >= 0 {
        zero_pad(decimal(v as nat), w)
    } else {
        seq!['-'] + zero_pad(decimal((-v) as nat), w - 1)
    }
}

/// The decimal digits of `n`.
pub fn decimal_chars(n: u64) -> (r: Vec<char>)
    ensures
        r@ == decimal(n as nat),
    decreases n,
{
    if n < 10 {
        let c = ((n as u8) + 48u8) as char;
        let mut r: Vec<char> = Vec::new();
        r.push(c);
        assert(r@ =~= decimal(n as nat));
        r
    } else {
        let mut r = decimal_chars(n / 10);
        let c = (((n % 10) as u8) + 48u8) as char;
        r.push(c);
        r
    }
}

/// Prepend zeros to `s` until it is `w` characters long.
fn pad_zeros(s: Vec<char>, w: usize) -> (r: Vec<char>)
    ensures
        r@ == zero_pad(s@, w as int),
{
    if s.len() >= w {
        return s;
    }
    let mut r: Vec<char> = Vec::new();
    let n = w - s.len();
    let mut i: usize = 0;
    while i < n
        invariant
            i <= n,
            r@ == Seq::new(i as nat, |k: int| '0'),
        decreases n - i,
    {
        r.push('0');
        i = i + 1;
        assert(r@ =~= Seq::new(i as nat, |k: int| '0'));
    }
    let mut j: usize = 0;
    while j < s.len()
        invariant
            j <= s.len(),
            r@ == Seq::new(n as nat, |k: int| '0') + s@.take(j as int),
        decreases s.len() - j,
    {
        r.push(s[j]);
        j = j + 1;
        assert(r@ =~= Seq::new(n as nat, |k: int| '0') + s@.take(j as int));
    }
    assert(s@.take(j as int) =~= s@);
    r
}

/// `format!("{v:0w$}")` for an `i64`.
pub fn fmt_padded_i64(v: i64, w: usize) -> (r: Vec<char>)
    requires
        w >= 1,
    ensures
        r@ == fmt_padded(v as int, w as int),
{
    if v >= 0 {
        pad_zeros(decimal_chars(v as u64), w)
    } else {
        let mag: u64 = if v == i64::MIN {
            9223372036854775808u64
        } else {
            (-v) as u64
        };
        let digits = pad_zeros(decimal_chars(mag), w - 1);
        let mut r: Vec<char> = Vec::new();
        r.push('-');
        let mut j: usize = 0;
        while j < digits.len()
            invariant
                j <= digits.len(),
                r@ == seq!['-'] + digits@.take(j as int),
            decreases digits.len() - j,
        {
            r.push(digits[j]);
            j = j + 1;
            assert(r@ =~= seq!['-'] + digits@.take(j as int));
        }
        assert(digits@.take(j as int) =~= digits@);
        r
    }
}

// ---------------------------------------------------------------
// Civil dates
// ---------------------------------------------------------------

/// Division rounding towards zero, as Rust's `/` on signed integers.
pub open spec fn tdiv(a: int, b: int) -> int {
    if a >= 0 {
        a / b
    } else {
        -((-a) / b)
    }
}

/// Remainder with the sign of the dividend, as Rust's `%`.
pub open spec fn trem(a: int, b: int) -> int {
    a - b * tdiv(a, b)
}

pub open spec fn in_i64(v: int) -> bool {
    i64::MIN <= v <= i64::MAX
}

/// The year and month the day count starts from (March-based years).
pub open spec fn shifted_year(y: int, m: int) -> int {
    if m <= 2 {
        y - 1
    } else {
        y
    }
}

pub open spec fn shifted_month(m: int) -> int {
    if m <= 2 {
        m + 12
    } else {
        m
    }
}

pub open spec fn era_of(y2: int) -> int {
    tdiv(if y2 >= 0 { y2 } else { y2 - 399 }, 400)
}

pub open spec fn day_of_era(y: int, m: int, d: int) -> int {
    let y2 = shifted_year(y, m);
    let yoe = y2 - era_of(y2) * 400;
    let mp = trem(shifted_month(m) + 9, 12);
    let doy = tdiv(153 * mp + 2, 5) + d - 1;
    yoe * 365 + tdiv(yoe, 4) - tdiv(yoe, 100) + doy
}

/// Days from 1970-01-01 to the proleptic Gregorian date `y-m-d`
/// (Hinnant's `days_from_civil`), computed as the store computes it
/// for any `m` and `d`.
pub open spec fn days_from_civil(y: int, m: int, d: int) -> int {
    era_of(shifted_year(y, m)) * 146097 + day_of_era(y, m, d) - 719468
}

/// Every intermediate of the day count fits in an `i64`.
pub open spec fn days_fit(y: int, m: int, d: int) -> bool {
    let y2 = shifted_year(y, m);
    let era = era_of(y2);
    let mp = trem(shifted_month(m) + 9, 12);
    let q = tdiv(153 * mp + 2, 5);
    &&& in_i64(y2)
    &&& (y2 < 0 ==> in_i64(y2 - 399))
    &&& in_i64(shifted_month(m))
    &&& in_i64(shifted_month(m) + 9)
    &&& in_i64(q + d)
    &&& in_i64(q + d - 1)
    &&& in_i64(day_of_era(y, m, d))
    &&& in_i64(era * 146097)
    &&& in_i64(era * 146097 + day_of_era(y, m, d))
    &&& in_i64(days_from_civil(y, m, d))
}

/// The day count, for `i64` operands.
pub fn days_from_civil_exec(y: i64, m: i64, d: i64) -> (r: i64)
    requires
        days_fit(y as int, m as int, d as int),
    ensures
        r == days_from_civil(y as int, m as int, d as int),
{
    let (y2, m2) = if m <= 2 {
        (y - 1, m + 12)
    } else {
        (y, m)
    };
    let era = (if y2 >= 0 {
        y2
    } else {
        y2 - 399
    }) / 400;
    let yoe = y2 - era * 400;
    assert(0 <= yoe < 400);
    let mp = (m2 + 9) % 12;
    assert(-12 < mp < 12);
    let doy = (153 * mp + 2) / 5 + d - 1;
    let doe = yoe * 365 + yoe / 4 - yoe / 100 + doy;
    era * 146_097 + doe - 719_468
}

/// The three-letter weekday org writes for day index `k` (0 is
/// Thursday, 1970-01-01).
pub open spec fn weekday_name(k: int) -> Seq<char> {
    if k == 0 {
        "Thu"@
    } else if k == 1 {
        "Fri"@
    } else if k == 2 {
        "Sat"@
    } else if k == 3 {
        "Sun"@
    } else if k == 4 {
        "Mon"@
    } else if k == 5 {
        "Tue"@
    } else {
        "Wed"@
    }
}

/// Org's three-letter weekday for a civil date.
pub open spec fn weekday_of(y: int, m: int, d: int) -> Seq<char> {
    weekday_name(days_from_civil(y, m, d) % 7)
}

/// Org's three-letter weekday for a civil date.
pub fn closure_shell_weekday(y: i64, m: u32, d: u32) -> (r: &'static str)
    requires
        days_fit(y as int, m as int, d as int),
    ensures
        r@ == weekday_of(y as int, m as int, d as int),
{
    let days = days_from_civil_exec(y, m as i64, d as i64);
    let mut k = days % 7;
    if k < 0 {
        k = k + 7;
    }
    assert(k == days as int % 7);
    if k == 0 {
        "Thu"
    } else if k == 1 {
        "Fri"
    } else if k == 2 {
        "Sat"
    } else if k == 3 {
        "Sun"
    } else if k == 4 {
        "Mon"
    } else if k == 5 {
        "Tue"
    } else {
        "Wed"
    }
}

} // verus!

verus! {

// ---------------------------------------------------------------
// Clock stamps
// ---------------------------------------------------------------

/// The first three `-`-separated pieces of `date`, if it has three.
pub open spec fn date_fields(date: Seq<char>) -> Option<(Seq<char>, Seq<char>, Seq<char>)> {
    match split_once(date, '-') {
        None => None,
        Some((a, r1)) => match split_once(r1, '-') {
            None => None,
            Some((b, r2)) => Some(
                (
                    a,
                    b,
                    match split_once(r2, '-') {
                        Some((c, _)) => c,
                        None => r2,
                    },
                ),
            ),
        },
    }
}

/// The date and the time of a `YYYY-MM-DD HH:MM` argument: split at the
/// first space of the trimmed text, the time defaulting to `00:00`.
pub open spec fn stamp_date_time(now: Seq<char>) -> (Seq<char>, Seq<char>) {
    let t = trim(now);
    match split_once(t, ' ') {
        Some((a, b)) => (a, b),
        None => (t, "00:00"@),
    }
}

/// Year, month, day and time read from a `YYYY-MM-DD HH:MM` argument.
pub open spec fn stamp_fields(now: Seq<char>) -> Option<(int, int, int, Seq<char>)> {
    let (date, time) = stamp_date_time(now);
    match date_fields(date) {
        Some((ys, ms, ds)) => match (parse_i64(ys), parse_u32(ms), parse_u32(ds)) {
            (Some(y), Some(m), Some(d)) => Some((y, m, d, time)),
            _ => None,
        },
        None => None,
    }
}

/// The stamp body org writes inside a `CLOCK:` entry:
/// `YYYY-MM-DD Www HH:MM`.
pub open spec fn stamp_text(y: int, m: int, d: int, time: Seq<char>) -> Seq<char> {
    fmt_padded(y, 4) + seq!['-'] + fmt_padded(m, 2) + seq!['-'] + fmt_padded(d, 2) + seq![' ']
        + weekday_of(y, m, d) + seq![' '] + time
}

/// The weekday of the date a stamp names can be computed in an `i64`.
pub open spec fn stamp_fits(now: Seq<char>) -> bool {
    match stamp_fields(now) {
        Some((y, m, d, _)) => days_fit(y, m, d),
        None => true,
    }
}

/// The message for an argument that is not a stamp.
pub open spec fn bad_stamp_message(now: Seq<char>) -> Seq<char> {
    seq!['`'] + now + "` is not `YYYY-MM-DD HH:MM`"@
}

/// The first three `-`-separated pieces of `date`.
fn date_fields_exec(date: &Vec<char>) -> (r: Option<(Vec<char>, Vec<char>, Vec<char>)>)
    ensures
        match r {
            Some((a, b, c)) => date_fields(date@) == Some((a@, b@, c@)),
            None => date_fields(date@) is None,
        },
{
    let i = match find_first(date, '-') {
        Some(i) => i,
        None => return None,
    };
    assert(i < date.len());
    let a = slice_chars(date, 0, i);
    let r1 = slice_chars(date, i + 1, date.len());
    assert(a@ =~= date@.take(i as int));
    assert(r1@ =~= date@.skip(i + 1));
    let j = match find_first(&r1, '-') {
        Some(j) => j,
        None => return None,
    };
    let b = slice_chars(&r1, 0, j);
    let r2 = slice_chars(&r1, j + 1, r1.len());
    assert(b@ =~= r1@.take(j as int));
    assert(r2@ =~= r1@.skip(j + 1));
    match find_first(&r2, '-') {
        Some(k) => {
            let c = slice_chars(&r2, 0, k);
            assert(c@ =~= r2@.take(k as int));
            Some((a, b, c))
        },
        None => Some((a, b, r2)),
    }
}

/// Turn `YYYY-MM-DD HH:MM` into the stamp body org writes inside a
/// `CLOCK:` entry: `2026-07-28 Tue 09:15`.
pub fn org_clock_stamp(now: &str) -> (r: Result<String, VaultError>)
    requires
        stamp_fits(now@),
    ensures
        match stamp_fields(now@) {
            Some((y, m, d, time)) => r matches Ok(s) && s@ == stamp_text(y, m, d, time),
            None => r matches Err(VaultError::Command(msg)) && msg@ == bad_stamp_message(now@),
        },
{
    let v = chars_of(now);
    let t = trim_chars(&v);
    let (date, time) = match find_first(&t, ' ') {
        Some(i) => {
            let a = slice_chars(&t, 0, i);
            let b = slice_chars(&t, i + 1, t.len());
            assert(a@ =~= t@.take(i as int));
            assert(b@ =~= t@.skip(i + 1));
            (a, b)
        },
        None => (t, chars_of("00:00")),
    };
    assert(stamp_date_time(now@) == (date@, time@));
    let fields = date_fields_exec(&date);
    let parsed = match fields {
        Some((ys, ms, ds)) => {
            assert(ys@.subrange(0, ys@.len() as int) =~= ys@);
            assert(ms@.subrange(0, ms@.len() as int) =~= ms@);
            assert(ds@.subrange(0, ds@.len() as int) =~= ds@);
            match (
                parse_i64_chars(&ys, 0, ys.len()),
                parse_u32_chars(&ms, 0, ms.len()),
                parse_u32_chars(&ds, 0, ds.len()),
            ) {
                (Some(y), Some(m), Some(d)) => Some((y, m, d)),
                _ => None,
            }
        },
        None => None,
    };
    match parsed {
        Some((y, m, d)) => {
            let day = closure_shell_weekday(y, m, d);
            let mut s = String::new();
            push_chars(&mut s, &fmt_padded_i64(y, 4));
            push_char(&mut s, '-');
            push_chars(&mut s, &fmt_padded_i64(m as i64, 2));
            push_char(&mut s, '-');
            push_chars(&mut s, &fmt_padded_i64(d as i64, 2));
            push_char(&mut s, ' ');
            push_str_chars(&mut s, day);
            push_char(&mut s, ' ');
            push_chars(&mut s, &time);
            assert(s@ =~= stamp_text(y as int, m as int, d as int, time@));
            Ok(s)
        },
        None => {
            let mut msg = String::new();
            push_char(&mut msg, '`');
            push_str_chars(&mut msg, now);
            push_str_chars(&mut msg, "` is not `YYYY-MM-DD HH:MM`");
            assert(msg@ =~= bad_stamp_message(now@));
            Err(VaultError::Command(msg))
        },
    }
}

// ---------------------------------------------------------------
// Minutes between two stamps
// ---------------------------------------------------------------

/// The first and the last whitespace-separated word of `s`, when it has
/// at least two.
pub open spec fn span_tokens(s: Seq<char>) -> Option<(Seq<char>, Seq<char>)> {
    let t = trim(s);
    if has_ws(t) {
        Some((t.take(first_ws(t)), t.skip(last_ws(t) + 1)))
    } else {
        None
    }
}

/// Year, month, day, hour and minute of a `CLOCK:` stamp body
/// (`2026-07-28 Tue 09:15`): the date is the first word, the time the
/// last.
pub open spec fn span_fields(s: Seq<char>) -> Option<(int, int, int, int, int)> {
    match span_tokens(s) {
        None => None,
        Some((date, time)) => match date_fields(date) {
            None => None,
            Some((ys, ms, ds)) => match (parse_i64(ys), parse_i64(ms), parse_i64(ds)) {
                (Some(y), Some(m), Some(d)) => match split_once(time, ':') {
                    None => None,
                    Some((hs, mins)) => match (parse_i64(hs), parse_i64(mins)) {
                        (Some(h), Some(mi)) => Some((y, m, d, h, mi)),
                        _ => None,
                    },
                },
                _ => None,
            },
        },
    }
}

/// Minutes from 1970-01-01 00:00 to the stamp's date and time.
pub open spec fn stamp_minutes(f: (int, int, int, int, int)) -> int {
    days_from_civil(f.0, f.1, f.2) * 24 * 60 + f.3 * 60 + f.4
}

/// Every intermediate of [`stamp_minutes`] fits in an `i64`.
pub open spec fn minutes_fit(f: (int, int, int, int, int)) -> bool {
    let days = days_from_civil(f.0, f.1, f.2);
    &&& days_fit(f.0, f.1, f.2)
    &&& in_i64(days * 24)
    &&& in_i64(days * 24 * 60)
    &&& in_i64(f.3 * 60)
    &&& in_i64(days * 24 * 60 + f.3 * 60)
    &&& in_i64(stamp_minutes(f))
}

/// The minutes from `start` to `end`, when both read as stamps and the
/// end is not before the start.
pub open spec fn span_between(start: Seq<char>, end: Seq<char>) -> Option<int> {
    match (span_fields(start), span_fields(end)) {
        (Some(a), Some(b)) => if stamp_minutes(b) - stamp_minutes(a) >= 0 {
            Some(stamp_minutes(b) - stamp_minutes(a))
        } else {
            None
        },
        _ => None,
    }
}

/// The stamps' minute counts, and their difference, fit in an `i64`.
pub open spec fn span_fits(start: Seq<char>, end: Seq<char>) -> bool {
    match span_fields(start) {
        None => true,
        Some(a) => minutes_fit(a) && match span_fields(end) {
            None => true,
            Some(b) => minutes_fit(b) && in_i64(stamp_minutes(b) - stamp_minutes(a)),
        },
    }
}

/// The fields of one stamp body.
fn span_fields_exec(s: &str) -> (r: Option<(i64, i64, i64, i64, i64)>)
    ensures
        match r {
            Some(f) => span_fields(s@) == Some((f.0 as int, f.1 as int, f.2 as int, f.3 as int, f.4 as int)),
            None => span_fields(s@) is None,
        },
{
    let v = chars_of(s);
    let t = trim_chars(&v);
    let i = match find_first_ws(&t) {
        Some(i) => i,
        None => return None,
    };
    let k = match find_last_ws(&t) {
        Some(k) => k,
        None => return None,
    };
    let date = slice_chars(&t, 0, i);
    let time = slice_chars(&t, k + 1, t.len());
    assert(date@ =~= t@.take(i as int));
    assert(time@ =~= t@.skip(k + 1));
    let (ys, ms, ds) = match date_fields_exec(&date) {
        Some(f) => f,
        None => return None,
    };
    assert(ys@.subrange(0, ys@.len() as int) =~= ys@);
    assert(ms@.subrange(0, ms@.len() as int) =~= ms@);
    assert(ds@.subrange(0, ds@.len() as int) =~= ds@);
    let y = match parse_i64_chars(&ys, 0, ys.len()) {
        Some(x) => x,
        None => return None,
    };
    let m = match parse_i64_chars(&ms, 0, ms.len()) {
        Some(x) => x,
        None => return None,
    };
    let d = match parse_i64_chars(&ds, 0, ds.len()) {
        Some(x) => x,
        None => return None,
    };
    let c = match find_first(&time, ':') {
        Some(c) => c,
        None => return None,
    };
    let hs = slice_chars(&time, 0, c);
    let mins = slice_chars(&time, c + 1, time.len());
    assert(hs@ =~= time@.take(c as int));
    assert(mins@ =~= time@.skip(c + 1));
    assert(hs@.subrange(0, hs@.len() as int) =~= hs@);
    assert(mins@.subrange(0, mins@.len() as int) =~= mins@);
    let h = match parse_i64_chars(&hs, 0, hs.len()) {
        Some(x) => x,
        None => return None,
    };
    let mi = match parse_i64_chars(&mins, 0, mins.len()) {
        Some(x) => x,
        None => return None,
    };
    Some((y, m, d, h, mi))
}

/// Minutes from 1970-01-01 00:00 to a stamp's date and time.
fn stamp_minutes_exec(f: (i64, i64, i64, i64, i64)) -> (r: i64)
    requires
        minutes_fit((f.0 as int, f.1 as int, f.2 as int, f.3 as int, f.4 as int)),
    ensures
        r == stamp_minutes((f.0 as int, f.1 as int, f.2 as int, f.3 as int, f.4 as int)),
{
    let days = days_from_civil_exec(f.0, f.1, f.2);
    days * 24 * 60 + f.3 * 60 + f.4
}

/// Minutes between two `CLOCK:` stamp bodies (`2026-07-28 Tue 09:15`).
pub fn clock_span_minutes(start: &str, end: &str) -> (r: Option<u64>)
    requires
        span_fits(start@, end@),
    ensures
        match span_between(start@, end@) {
            Some(n) => r == Some(n as u64),
            None => r is None,
        },
{
    let a = match span_fields_exec(start) {
        Some(f) => stamp_minutes_exec(f),
        None => return None,
    };
    let b = match span_fields_exec(end) {
        Some(f) => stamp_minutes_exec(f),
        None => return None,
    };
    let diff = b - a;
    if diff >= 0 {
        Some(diff as u64)
    } else {
        None
    }
}

// ---------------------------------------------------------------
// Agenda dates
// ---------------------------------------------------------------

pub open spec fn is_open_bracket(c: char) -> bool {
    c == '<' || c == '['
}

/// `i` is where the leading `<`/`[` run of `s` ends.
pub open spec fn is_bracket_end(s: Seq<char>, i: int) -> bool {
    &&& 0 <= i <= s.len()
    &&& forall|j: int| 0 <= j < i ==> is_open_bracket(#[trigger] s[j])
    &&& (i == s.len() || !is_open_bracket(s[i]))
}

/// `timestamp.trim_start_matches(['<', '['])`.
pub open spec fn strip_brackets(s: Seq<char>) -> Seq<char> {
    s.skip(choose|i: int| is_bracket_end(s, i))
}

/// Ten characters shaped `dddd-dd-dd`.
pub open spec fn date_shape(d: Seq<char>) -> bool {
    &&& d.len() == 10
    &&& forall|i: int|
        0 <= i < 10 ==> if i == 4 || i == 7 {
            #[trigger] d[i] == '-'
        } else {
            is_digit(d[i])
        }
}

/// The `YYYY-MM-DD` an org timestamp opens with, if it has one.
pub open spec fn agenda_date_of(ts: Seq<char>) -> Option<Seq<char>> {
    let body = strip_brackets(ts);
    if body.len() >= 10 && date_shape(body.take(10)) {
        Some(body.take(10))
    } else {
        None
    }
}

/// Extract a `YYYY-MM-DD` date from an org timestamp such as
/// `<2026-06-13 Fri>` or `[2026-06-13]`. `None` when no 10-char
/// `dddd-dd-dd` prefix is present.
pub fn agenda_date(timestamp: &str) -> (r: Option<String>)
    ensures
        match agenda_date_of(timestamp@) {
            Some(d) => r matches Some(s) && s@ == d,
            None => r is None,
        },
{
    let v = chars_of(timestamp);
    let mut i: usize = 0;
    while i < v.len() && (v[i] == '<' || v[i] == '[')
        invariant
            i <= v.len(),
            forall|j: int| 0 <= j < i ==> is_open_bracket(#[trigger] v@[j]),
        decreases v.len() - i,
    {
        i = i + 1;
    }
    proof {
        assert(is_bracket_end(v@, i as int));
        let k = choose|k: int| is_bracket_end(v@, k);
        if k < i {
            assert(is_open_bracket(v@[k]));
        } else if i < k {
            assert(is_open_bracket(v@[i as int]));
        }
        assert(strip_brackets(v@) == v@.skip(i as int));
    }
    let ghost body = v@.skip(i as int);
    if v.len() - i < 10 {
        return None;
    }
    let mut j: usize = 0;
    while j < 10
        invariant
            i + 10 <= v.len(),
            j <= 10,
            body == v@.skip(i as int),
            body == strip_brackets(timestamp@),
            forall|k: int|
                0 <= k < j ==> if k == 4 || k == 7 {
                    #[trigger] body[k] == '-'
                } else {
                    is_digit(body[k])
                },
        decreases 10 - j,
    {
        let c = v[i + j];
        let ok = if j == 4 || j == 7 {
            c == '-'
        } else {
            '0' <= c && c <= '9'
        };
        if !ok {
            proof {
                let d = body.take(10);
                assert(d[j as int] == c);
                assert(!date_shape(d));
            }
            return None;
        }
        j = j + 1;
    }
    let d = slice_chars(&v, i, i + 10);
    assert(d@ =~= body.take(10));
    Some(string_of(&d))
}

// ---------------------------------------------------------------
// Day numbers of agenda dates
// ---------------------------------------------------------------

pub open spec fn pow10(n: nat) -> int
    decreases n,
{
    if n == 0 {
        1
    } else {
        10 * pow10((n - 1) as nat)
    }
}

/// A run of `n` digits is worth less than `10^n`.
pub proof fn lemma_digits_value_lt(s: Seq<char>)
    requires
        all_digits(s),
    ensures
        0 <= digits_value(s) < pow10(s.len()),
    decreases s.len(),
{
    if s.len() > 0 {
        assert(all_digits(s.drop_last())) by {
            assert forall|i: int| 0 <= i < s.drop_last().len() implies is_digit(#[trigger] s.drop_last()[i]) by {
                assert(s.drop_last()[i] == s[i]);
            }
        }
        lemma_digits_value_lt(s.drop_last());
        assert(is_digit(s[s.len() - 1]));
    }
}

/// The year, month and day numbers of a `dddd-dd-dd` date.
pub open spec fn ymd_of(d: Seq<char>) -> (int, int, int) {
    (digits_value(d.take(4)), digits_value(d.subrange(5, 7)), digits_value(d.subrange(8, 10)))
}

/// The day number of a `dddd-dd-dd` date.
pub open spec fn date_days(d: Seq<char>) -> int {
    days_from_civil(ymd_of(d).0, ymd_of(d).1, ymd_of(d).2)
}

/// A four-digit year with two-digit month and day has a day count that
/// fits an `i64`, and a small one.
pub proof fn lemma_small_date_fits(y: int, m: int, d: int)
    requires
        0 <= y <= 9999,
        0 <= m <= 99,
        0 <= d <= 99,
    ensures
        days_fit(y, m, d),
        -1_000_000 <= days_from_civil(y, m, d) <= 4_000_000,
{
    let y2 = shifted_year(y, m);
    let era = era_of(y2);
    assert(-1 <= y2 <= 9999);
    assert(-1 <= era <= 24) by {
        if y2 < 0 {
            assert(y2 - 399 == -400);
            assert(tdiv(-400, 400) == -1);
        }
    }
    let yoe = y2 - era * 400;
    assert(0 <= yoe < 400) by {
        if y2 < 0 {
            assert(era == -1);
        } else {
            assert(era == y2 / 400);
        }
    }
    let mp = trem(shifted_month(m) + 9, 12);
    assert(0 <= mp < 12);
    let q = tdiv(153 * mp + 2, 5);
    assert(0 <= q <= 400) by {
        assert(153 * mp + 2 <= 153 * 11 + 2) by (nonlinear_arith)
            requires
                0 <= mp < 12,
        ;
    }
    assert(0 <= yoe * 365 <= 399 * 365) by (nonlinear_arith)
        requires
            0 <= yoe < 400,
    ;
    assert(-146097 <= era * 146097 <= 24 * 146097) by (nonlinear_arith)
        requires
            -1 <= era <= 24,
    ;
}

/// Whether `v` is shaped `dddd-dd-dd`.
pub fn is_date_shape(v: &Vec<char>) -> (r: bool)
    ensures
        r == date_shape(v@),
{
    if v.len() != 10 {
        return false;
    }
    let mut j: usize = 0;
    while j < 10
        invariant
            v.len() == 10,
            j <= 10,
            forall|k: int|
                0 <= k < j ==> if k == 4 || k == 7 {
                    #[trigger] v@[k] == '-'
                } else {
                    is_digit(v@[k])
                },
        decreases 10 - j,
    {
        let c = v[j];
        let ok = if j == 4 || j == 7 {
            c == '-'
        } else {
            '0' <= c && c <= '9'
        };
        if !ok {
            return false;
        }
        j = j + 1;
    }
    true
}

/// The day number of a `dddd-dd-dd` date.
pub fn date_days_exec(v: &Vec<char>) -> (r: i64)
    requires
        date_shape(v@),
    ensures
        r == date_days(v@),
        -1_000_000 <= r <= 4_000_000,
{
    let ghost s = v@;
    assert(all_digits(s.take(4))) by {
        assert forall|i: int| 0 <= i < 4 implies is_digit(#[trigger] s.take(4)[i]) by {
            assert(s.take(4)[i] == s[i]);
        }
    }
    assert(all_digits(s.subrange(5, 7))) by {
        assert forall|i: int| 0 <= i < 2 implies is_digit(#[trigger] s.subrange(5, 7)[i]) by {
            assert(s.subrange(5, 7)[i] == s[5 + i]);
        }
    }
    assert(all_digits(s.subrange(8, 10))) by {
        assert forall|i: int| 0 <= i < 2 implies is_digit(#[trigger] s.subrange(8, 10)[i]) by {
            assert(s.subrange(8, 10)[i] == s[8 + i]);
        }
    }
    assert(s.take(4) =~= s.subrange(0, 4));
    proof {
        lemma_digits_value_lt(s.take(4));
        lemma_digits_value_lt(s.subrange(5, 7));
        lemma_digits_value_lt(s.subrange(8, 10));
        reveal_with_fuel(pow10, 5);
    }
    let y = match parse_digits(v, 0, 4) {
        Some(x) => x,
        None => 0,
    };
    let m = match parse_digits(v, 5, 7) {
        Some(x) => x,
        None => 0,
    };
    let d = match parse_digits(v, 8, 10) {
        Some(x) => x,
        None => 0,
    };
    proof {
        lemma_small_date_fits(y as int, m as int, d as int);
    }
    days_from_civil_exec(y as i64, m as i64, d as i64)
}

// ---------------------------------------------------------------
// Laws
// ---------------------------------------------------------------

/// A clock that starts and stops at the same stamp ran for no time.
pub proof fn law_span_to_itself_is_zero(s: Seq<char>)
    requires
        span_fields(s) is Some,
    ensures
        span_between(s, s) == Some(0int),
{
}

/// Clocked time adds up: the minutes from `a` to `b` and from `b` to `c`
/// are the minutes from `a` to `c`.
pub proof fn law_spans_add_up(a: Seq<char>, b: Seq<char>, c: Seq<char>)
    requires
        span_between(a, b) is Some,
        span_between(b, c) is Some,
    ensures
        span_between(a, c) == Some(span_between(a, b)->0 + span_between(b, c)->0),
{
}

/// A later stamp never gives fewer minutes: when `b` is reached from `a`
/// and `c` is at least as late as `b`, `c` is reached from `a` too.
pub proof fn law_span_monotone(a: Seq<char>, b: Seq<char>, c: Seq<char>)
    requires
        span_between(a, b) is Some,
        span_between(b, c) is Some,
    ensures
        span_between(a, c)->0 >= span_between(a, b)->0,
{
}

/// Weekdays repeat every seven days.
pub proof fn law_weekday_repeats_weekly(y: int, m: int, d: int)
    ensures
        days_from_civil(y, m, d + 7) == days_from_civil(y, m, d) + 7,
        weekday_of(y, m, d + 7) == weekday_of(y, m, d),
{
}

/// Consecutive days are consecutive day numbers.
pub proof fn law_next_day_is_one_later(y: int, m: int, d: int)
    ensures
        days_from_civil(y, m, d + 1) == days_from_civil(y, m, d) + 1,
{
}


/// A leap year of the proleptic Gregorian calendar.
pub open spec fn is_leap(y: int) -> bool {
    (y % 4 == 0 && y % 100 != 0) || y % 400 == 0
}

/// The number of days of month `m` of year `y`.
pub open spec fn days_in_month(y: int, m: int) -> int {
    if m == 2 {
        if is_leap(y) {
            29
        } else {
            28
        }
    } else if m == 4 || m == 6 || m == 9 || m == 11 {
        30
    } else {
        31
    }
}

/// `y-m-d` is a date of the proleptic Gregorian calendar.
pub open spec fn valid_date(y: int, m: int, d: int) -> bool {
    1 <= m <= 12 && 1 <= d <= days_in_month(y, m)
}

/// The day after `y-m-d`, across the end of a month or a year.
pub open spec fn next_day(y: int, m: int, d: int) -> (int, int, int) {
    if d < days_in_month(y, m) {
        (y, m, d + 1)
    } else if m < 12 {
        (y, m + 1, 1)
    } else {
        (y + 1, 1, 1)
    }
}

/// The weekday after `w`: Mon, Tue, ... Sun, then Mon again.
pub open spec fn following_weekday(w: Seq<char>) -> Seq<char> {
    if w == "Mon"@ {
        "Tue"@
    } else if w == "Tue"@ {
        "Wed"@
    } else if w == "Wed"@ {
        "Thu"@
    } else if w == "Thu"@ {
        "Fri"@
    } else if w == "Fri"@ {
        "Sat"@
    } else if w == "Sat"@ {
        "Sun"@
    } else {
        "Mon"@
    }
}

/// The era of a shifted year is its floor division by 400.
proof fn lemma_era_floor(y2: int)
    ensures
        era_of(y2) == y2 / 400,
{
    if y2 < 0 {
        let q = y2 / 400;
        let r = y2 % 400;
        assert(y2 == 400 * q + r && 0 <= r < 400);
        assert(399 - y2 == 400 * (-q) + (399 - r));
        assert((399 - y2) / 400 == -q) by {
            vstd::arithmetic::div_mod::lemma_fundamental_div_mod_converse(399 - y2, 400, -q, 399 - r);
        }
        assert(tdiv(y2 - 399, 400) == -((399 - y2) / 400));
    }
}

/// The day count of a date with a month in range, with floor division.
proof fn lemma_days_floor(y: int, m: int, d: int)
    requires
        1 <= m <= 12,
    ensures
        ({
            let y2 = shifted_year(y, m);
            let yoe = y2 % 400;
            let mp = if m <= 2 { m + 9 } else { m - 3 };
            days_from_civil(y, m, d) == (y2 / 400) * 146097 + yoe * 365 + yoe / 4 - yoe / 100 + (153 * mp + 2)
                / 5 + d - 1 - 719468
        }),
{
    let y2 = shifted_year(y, m);
    lemma_era_floor(y2);
    let era = y2 / 400;
    assert(y2 - era * 400 == y2 % 400);
    let yoe = y2 % 400;
    assert(0 <= yoe < 400);
    let mp = if m <= 2 { m + 9 } else { m - 3 };
    assert(trem(shifted_month(m) + 9, 12) == mp);
    assert(tdiv(153 * mp + 2, 5) == (153 * mp + 2) / 5);
}

/// The first day of the year after the last day of February.
proof fn lemma_march_first(y: int)
    ensures
        days_from_civil(y, 3, 1) == days_from_civil(y, 2, days_in_month(y, 2)) + 1,
{
    lemma_days_floor(y, 3, 1);
    lemma_days_floor(y, 2, days_in_month(y, 2));
    let a = y - 1;
    let q = a / 400;
    let r = a % 400;
    assert(a == 400 * q + r && 0 <= r < 400);
    if r < 399 {
        assert(y / 400 == q && y % 400 == r + 1) by {
            vstd::arithmetic::div_mod::lemma_fundamental_div_mod_converse(y, 400, q, r + 1);
        }
        assert(y % 4 == (r + 1) % 4 && y % 100 == (r + 1) % 100 && y % 400 != 0) by {
            assert(y == 400 * q + (r + 1));
            assert(y == 4 * (100 * q) + (r + 1));
            assert(y == 100 * (4 * q) + (r + 1));
            vstd::arithmetic::div_mod::lemma_mod_multiples_vanish(100 * q, r + 1, 4);
            vstd::arithmetic::div_mod::lemma_mod_multiples_vanish(4 * q, r + 1, 100);
        }
        assert((r + 1) / 4 - r / 4 == (if (r + 1) % 4 == 0 { 1int } else { 0 }));
        assert((r + 1) / 100 - r / 100 == (if (r + 1) % 100 == 0 { 1int } else { 0 }));
    } else {
        assert(y / 400 == q + 1 && y % 400 == 0) by {
            vstd::arithmetic::div_mod::lemma_fundamental_div_mod_converse(y, 400, q + 1, 0);
        }
        assert(is_leap(y));
        assert(q * 146097 + 146097 == (q + 1) * 146097) by (nonlinear_arith);
    }
}

/// The day after a date is the next day number.
pub proof fn lemma_next_day_number(y: int, m: int, d: int)
    requires
        valid_date(y, m, d),
    ensures
        days_from_civil(next_day(y, m, d).0, next_day(y, m, d).1, next_day(y, m, d).2) == days_from_civil(y, m, d) + 1,
{
    if d < days_in_month(y, m) {
    } else if m == 2 {
        lemma_march_first(y);
    } else if m < 12 {
        lemma_days_floor(y, m, d);
        lemma_days_floor(y, m + 1, 1);
    } else {
        lemma_days_floor(y, 12, d);
        lemma_days_floor(y + 1, 1, 1);
    }
}

/// Weekdays follow one another across the end of a month and of a year:
/// the day after a valid date falls on the next weekday.
pub proof fn law_weekday_of_next_day(y: int, m: int, d: int)
    requires
        valid_date(y, m, d),
    ensures
        weekday_of(next_day(y, m, d).0, next_day(y, m, d).1, next_day(y, m, d).2) == following_weekday(
            weekday_of(y, m, d),
        ),
{
    lemma_next_day_number(y, m, d);
    let x = days_from_civil(y, m, d);
    let k = x % 7;
    assert((x + 1) % 7 == (if k == 6 { 0 } else { k + 1 }));
    reveal_strlit("Mon");
    reveal_strlit("Tue");
    reveal_strlit("Wed");
    reveal_strlit("Thu");
    reveal_strlit("Fri");
    reveal_strlit("Sat");
    reveal_strlit("Sun");
    assert(weekday_of(y, m, d) == weekday_name(k));
    assert("Mon"@ =~= seq!['M', 'o', 'n']);
    assert("Tue"@ =~= seq!['T', 'u', 'e']);
    assert("Wed"@ =~= seq!['W', 'e', 'd']);
    assert("Thu"@ =~= seq!['T', 'h', 'u']);
    assert("Fri"@ =~= seq!['F', 'r', 'i']);
    assert("Sat"@ =~= seq!['S', 'a', 't']);
    assert("Sun"@ =~= seq!['S', 'u', 'n']);
    assert("Sun"@[1] != "Sat"@[1] && "Thu"@[1] != "Tue"@[1]);
    if k == 0 {
        assert(following_weekday("Thu"@) == "Fri"@);
    } else if k == 1 {
        assert(following_weekday("Fri"@) == "Sat"@);
    } else if k == 2 {
        assert(following_weekday("Sat"@) == "Sun"@);
    } else if k == 3 {
        assert(following_weekday("Sun"@) == "Mon"@);
    } else if k == 4 {
        assert(following_weekday("Mon"@) == "Tue"@);
    } else if k == 5 {
        assert(following_weekday("Tue"@) == "Wed"@);
    } else {
        assert(following_weekday("Wed"@) == "Thu"@);
    }
}

/// The calendar repeats every 400 years, to the weekday: 400 years are
/// 146097 days, a whole number of weeks.
pub proof fn law_weekday_repeats_every_400_years(y: int, m: int, d: int)
    requires
        1 <= m <= 12,
    ensures
        days_from_civil(y + 400, m, d) == days_from_civil(y, m, d) + 146097,
        weekday_of(y + 400, m, d) == weekday_of(y, m, d),
{
    lemma_days_floor(y, m, d);
    lemma_days_floor(y + 400, m, d);
    let y2 = shifted_year(y, m);
    let q = y2 / 400;
    let r = y2 % 400;
    assert(y2 == 400 * q + r && 0 <= r < 400);
    assert((y2 + 400) / 400 == q + 1 && (y2 + 400) % 400 == r) by {
        vstd::arithmetic::div_mod::lemma_fundamental_div_mod_converse(y2 + 400, 400, q + 1, r);
    }
    assert((q + 1) * 146097 == q * 146097 + 146097) by (nonlinear_arith);
    let x = days_from_civil(y, m, d);
    assert((x + 146097) % 7 == x % 7) by {
        assert(146097 == 7 * 20871);
        vstd::arithmetic::div_mod::lemma_mod_multiples_vanish(20871, x, 7);
    }
}

} // verus!
