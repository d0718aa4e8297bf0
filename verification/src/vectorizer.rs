//! Transformation of a transaction into a feature vector.

use vstd::prelude::*;
use vstd::slice::slice_subrange;
#[allow(unused_imports)]
use vstd::utf8::encode_utf8;

use crate::binary32::Binary32;
#[allow(unused_imports)]
use crate::binary32::{
    lemma_nearest_bound, lemma_of_int_exact, lemma_of_int_not_zero, lemma_quotient_is_number,
    lemma_share_of_whole, ONE_BITS,
};
#[allow(unused_imports)]
use crate::models::LastTransaction;
use crate::models::{MccRisk, TransactionPayload};

verus! {

/// Minus one: it stands for what an absent last transaction would have told. It lies outside the
/// unit interval on purpose, to keep transactions without history together.
pub const SENTINEL_BITS: u32 = 0xBF80_0000;

// ── Timestamps ───────────────────────────────────────────────────────────────

pub open spec fn is_digit(b: u8) -> bool {
    0x30 <= b <= 0x39
}

/// The value of decimal digits.
pub open spec fn decimal_value(b: Seq<u8>) -> nat
    decreases b.len(),
{
    if b.len() == 0 {
        0
    } else {
        (10 * decimal_value(b.drop_last()) + (b.last() - 0x30)) as nat
    }
}

/// The number that digits stand for, limited to the largest `u32`; none where there are no
/// digits or something else is among them.
pub open spec fn parsed(b: Seq<u8>) -> Option<u32> {
    if b.len() == 0 || exists|i: int| 0 <= i < b.len() && !is_digit(#[trigger] b[i]) {
        None
    } else if decimal_value(b) > u32::MAX {
        Some(u32::MAX)
    } else {
        Some(decimal_value(b) as u32)
    }
}

/// The number in a range of a text; none where the range does not lie within the text.
pub open spec fn parsed_range(b: Seq<u8>, start: int, end: int) -> Option<u32> {
    if 0 <= start <= end <= b.len() {
        parsed(b.subrange(start, end))
    } else {
        None
    }
}

/// Parses ASCII decimal digits.
pub fn parse_digits(b: &[u8]) -> (r: Option<u32>)
    ensures
        r == parsed(b@),
{
    if b.len() == 0 {
        return None;
    }
    let mut acc: u32 = 0;
    let mut i: usize = 0;
    while i < b.len()
        invariant
            i <= b.len(),
            b.len() > 0,
            forall|j: int| 0 <= j < i ==> is_digit(#[trigger] b@[j]),
            decimal_value(b@.take(i as int)) > u32::MAX ==> acc == u32::MAX,
            decimal_value(b@.take(i as int)) <= u32::MAX ==> acc == decimal_value(
                b@.take(i as int),
            ),
        decreases b.len() - i,
    {
        let d = b[i];
        if d < 0x30 || d > 0x39 {
            assert(!is_digit(b@[i as int]));
            return None;
        }
        proof {
            assert(b@.take(i + 1).drop_last() =~= b@.take(i as int));
            assert(b@.take(i + 1).last() == d);
        }
        let wide: u64 = acc as u64 * 10 + (d - 0x30) as u64;
        acc = if wide > u32::MAX as u64 {
            u32::MAX
        } else {
            wide as u32
        };
        i = i + 1;
    }
    assert(b@.take(b@.len() as int) =~= b@);
    Some(acc)
}

/// Parses the digits in a range of bytes of a text.
pub fn parse_range_digits(iso: &str, start: usize, end: usize) -> (r: Option<u32>)
    ensures
        r == parsed_range(encode_utf8(iso@), start as int, end as int),
{
    let b = iso.as_bytes();
    if start <= end && end <= b.len() {
        parse_digits(slice_subrange(b, start, end))
    } else {
        None
    }
}

/// The number, or a default where there is none.
pub open spec fn or_default(n: Option<u32>, default: int) -> int {
    match n {
        Some(x) => x as int,
        None => default,
    }
}

fn range_or(iso: &str, start: usize, end: usize, default: u32) -> (r: u32)
    ensures
        r == or_default(parsed_range(encode_utf8(iso@), start as int, end as int), default as int),
{
    match parse_range_digits(iso, start, end) {
        Some(x) => x,
        None => default,
    }
}

/// The hour of a timestamp: zero where there is none up to 23.
pub open spec fn hour_of(b: Seq<u8>) -> u32 {
    match parsed_range(b, 11, 13) {
        Some(h) => if h <= 23 {
            h
        } else {
            0
        },
        None => 0,
    }
}

/// Extracts the UTC hour, 0 to 23, from an ISO 8601 text such as "2026-03-11T18:45:53Z": it is
/// always at bytes 11 and 12.
pub fn hour_utc(iso: &str) -> (r: u32)
    ensures
        r == hour_of(encode_utf8(iso@)),
        r <= 23,
{
    match parse_range_digits(iso, 11, 13) {
        Some(h) => if h <= 23 {
            h
        } else {
            0
        },
        None => 0,
    }
}

/// The quotient rounded towards zero.
pub open spec fn quotient(a: int, b: int) -> int {
    if a >= 0 {
        a / b
    } else {
        -((-a) / b)
    }
}

/// The shift of a month in the day of the week, for January to December.
pub open spec fn month_shift(m: int) -> int {
    if m == 1 {
        0
    } else if m == 2 {
        3
    } else if m == 3 {
        2
    } else if m == 4 {
        5
    } else if m == 5 {
        0
    } else if m == 6 {
        3
    } else if m == 7 {
        5
    } else if m == 8 {
        1
    } else if m == 9 {
        4
    } else if m == 10 {
        6
    } else if m == 11 {
        2
    } else {
        4
    }
}

pub open spec fn limited(n: int, lo: int, hi: int) -> int {
    if n < lo {
        lo
    } else if n > hi {
        hi
    } else {
        n
    }
}

/// The day of the week of a date, Monday being zero, by Sakamoto's algorithm, which takes
/// January and February as part of the year before.
pub open spec fn weekday_of(y: int, mo: int, d: int) -> int {
    let y1 = if mo < 3 {
        y - 1
    } else {
        y
    };
    let n = y1 + quotient(y1, 4) - quotient(y1, 100) + quotient(y1, 400) + month_shift(
        limited(mo, 1, 12),
    ) + d;
    (n + 6) % 7
}

proof fn lemma_short_value(b: Seq<u8>)
    requires
        b.len() <= 4,
        forall|i: int| 0 <= i < b.len() ==> is_digit(#[trigger] b[i]),
    ensures
        decimal_value(b) <= 9999,
        b.len() <= 2 ==> decimal_value(b) <= 99,
{
    reveal_with_fuel(decimal_value, 5);
}

proof fn lemma_range_bound(b: Seq<u8>, start: int, end: int)
    requires
        end - start <= 4,
    ensures
        parsed_range(b, start, end) matches Some(x) ==> x <= 9999 && (end - start <= 2 ==> x <= 99),
{
    if 0 <= start <= end <= b.len() {
        let s = b.subrange(start, end);
        if !(s.len() == 0 || exists|i: int| 0 <= i < s.len() && !is_digit(#[trigger] s[i])) {
            assert forall|i: int| 0 <= i < s.len() implies is_digit(#[trigger] s[i]) by {}
            lemma_short_value(s);
        }
    }
}

/// Returns the day of the week, Monday being 0 and Sunday 6. The date is always at bytes 0 to 9.
pub fn weekday_utc(iso: &str) -> (r: u32)
    ensures
        r == weekday_of(
            or_default(parsed_range(encode_utf8(iso@), 0, 4), 1970),
            or_default(parsed_range(encode_utf8(iso@), 5, 7), 1),
            or_default(parsed_range(encode_utf8(iso@), 8, 10), 1),
        ),
        r <= 6,
{
    proof {
        lemma_range_bound(encode_utf8(iso@), 0, 4);
        lemma_range_bound(encode_utf8(iso@), 5, 7);
        lemma_range_bound(encode_utf8(iso@), 8, 10);
    }
    let y = range_or(iso, 0, 4, 1970) as i32;
    let mo = range_or(iso, 5, 7, 1) as i32;
    let d = range_or(iso, 8, 10, 1) as i32;
    weekday(y, mo, d)
}

fn weekday(y: i32, mo: i32, d: i32) -> (r: u32)
    requires
        0 <= y <= 9999,
        0 <= mo <= 9999,
        0 <= d <= 9999,
    ensures
        r == weekday_of(y as int, mo as int, d as int),
        r <= 6,
{
    let t: [i32; 12] = [0, 3, 2, 5, 0, 3, 5, 1, 4, 6, 2, 4];
    let y1: i32 = if mo < 3 {
        y - 1
    } else {
        y
    };
    let month_idx: i32 = if mo < 1 {
        0
    } else if mo > 12 {
        11
    } else {
        mo - 1
    };
    let shift: i32 = t[month_idx as usize];
    assert(shift == month_shift(limited(mo as int, 1, 12)));
    assert(0 <= shift <= 6);
    let leaps: i32 = y1 / 4 - y1 / 100 + y1 / 400;
    assert(leaps == quotient(y1 as int, 4) - quotient(y1 as int, 100) + quotient(y1 as int, 400));
    assert(0 <= leaps <= 5000);
    let n: i32 = y1 + leaps + shift + d;
    let sakamoto: i32 = n % 7;
    assert((sakamoto + 6) % 7 == (n + 6) % 7) by {
        if n >= 0 {
            assert(sakamoto == n as int % 7);
        } else {
            assert(n == -1);
        }
    }
    ((sakamoto + 6) % 7) as u32
}

/// Days from 1970-01-01 to a date, by the Julian day number of the date.
pub open spec fn epoch_days(y: int, m: int, d: int) -> int {
    let a = quotient(14 - m, 12);
    let y_adj = y + 4800 - a;
    let m_adj = m + 12 * a - 3;
    d + quotient(153 * m_adj + 2, 5) + 365 * y_adj + quotient(y_adj, 4) - quotient(y_adj, 100)
        + quotient(y_adj, 400) - 32045 - 2440588
}

pub open spec fn fits_i64(n: int) -> bool {
    i64::MIN <= n <= i64::MAX
}

/// The steps of the computation stay within `i64`.
pub open spec fn epoch_days_fit(y: int, m: int, d: int) -> bool {
    let a = quotient(14 - m, 12);
    let y_adj = y + 4800 - a;
    let m_adj = m + 12 * a - 3;
    let whole = d + quotient(153 * m_adj + 2, 5) + 365 * y_adj;
    let fourth = whole + quotient(y_adj, 4);
    let hundredth = fourth - quotient(y_adj, 100);
    let all = hundredth + quotient(y_adj, 400);
    &&& fits_i64(14 - m)
    &&& fits_i64(y + 4800)
    &&& fits_i64(y_adj)
    &&& fits_i64(12 * a)
    &&& fits_i64(m + 12 * a)
    &&& fits_i64(m_adj)
    &&& fits_i64(153 * m_adj)
    &&& fits_i64(153 * m_adj + 2)
    &&& fits_i64(d + quotient(153 * m_adj + 2, 5))
    &&& fits_i64(365 * y_adj)
    &&& fits_i64(whole)
    &&& fits_i64(fourth)
    &&& fits_i64(hundredth)
    &&& fits_i64(all)
    &&& fits_i64(all - 32045)
    &&& fits_i64(all - 32045 - 2440588)
}

/// Converts a Gregorian date to days since 1970-01-01.
pub fn days_since_unix_epoch(y: i64, m: i64, d: i64) -> (r: i64)
    requires
        epoch_days_fit(y as int, m as int, d as int),
    ensures
        r == epoch_days(y as int, m as int, d as int),
{
    let a: i64 = (14 - m) / 12;
    let y_adj: i64 = y + 4_800 - a;
    let m_adj: i64 = m + 12 * a - 3;
    let jdn: i64 = d + (153 * m_adj + 2) / 5 + 365 * y_adj + y_adj / 4 - y_adj / 100 + y_adj / 400
        - 32_045;
    jdn - 2_440_588
}

/// Seconds since 1970 of a timestamp: the parts are limited to their ranges, and an absent one
/// is the first of its range.
pub open spec fn epoch_seconds(b: Seq<u8>) -> int {
    let y = or_default(parsed_range(b, 0, 4), 1970);
    let mo = limited(or_default(parsed_range(b, 5, 7), 1), 1, 12);
    let d = limited(or_default(parsed_range(b, 8, 10), 1), 1, 31);
    let h = limited(or_default(parsed_range(b, 11, 13), 0), 0, 23);
    let mi = limited(or_default(parsed_range(b, 14, 16), 0), 0, 59);
    let s = limited(or_default(parsed_range(b, 17, 19), 0), 0, 59);
    epoch_days(y, mo, d) * 86400 + h * 3600 + mi * 60 + s
}

fn limit(n: u32, lo: u32, hi: u32) -> (r: u32)
    requires
        lo <= hi,
    ensures
        r == limited(n as int, lo as int, hi as int),
{
    if n < lo {
        lo
    } else if n > hi {
        hi
    } else {
        n
    }
}

/// Converts an ISO 8601 UTC timestamp, such as "2026-03-11T18:45:53Z", to seconds since the
/// Unix epoch.
pub fn iso8601_to_secs(iso: &str) -> (r: i64)
    ensures
        r == epoch_seconds(encode_utf8(iso@)),
        -100_000_000_000 <= r <= 300_000_000_000,
{
    proof {
        lemma_range_bound(encode_utf8(iso@), 0, 4);
    }
    let y = range_or(iso, 0, 4, 1970) as i64;
    let mo = limit(range_or(iso, 5, 7, 1), 1, 12) as i64;
    let d = limit(range_or(iso, 8, 10, 1), 1, 31) as i64;
    let h = limit(range_or(iso, 11, 13, 0), 0, 23) as i64;
    let mi = limit(range_or(iso, 14, 16, 0), 0, 59) as i64;
    let s = limit(range_or(iso, 17, 19, 0), 0, 59) as i64;
    let days = days_since_unix_epoch(y, mo, d);
    days * 86_400 + h * 3_600 + mi * 60 + s
}

/// Minutes from one timestamp to another, cut to whole minutes.
pub open spec fn minutes_of(from: Seq<u8>, to: Seq<u8>) -> Binary32 {
    Binary32::of_int(quotient(epoch_seconds(to) - epoch_seconds(from), 60))
}

/// Returns the elapsed minutes from `from_iso` to `to_iso`.
pub fn minutes_between(from_iso: &str, to_iso: &str) -> (r: Binary32)
    ensures
        r == minutes_of(encode_utf8(from_iso@), encode_utf8(to_iso@)),
{
    let diff_secs: i64 = iso8601_to_secs(to_iso) - iso8601_to_secs(from_iso);
    Binary32::from_i64(diff_secs / 60)
}

// ── The vector ───────────────────────────────────────────────────────────────

/// The number limited to the unit interval; what is not a number stays.
pub fn clamp01(x: Binary32) -> (r: Binary32)
    ensures
        r == x.clamp01_spec(),
{
    x.clamp01()
}

/// A share of a whole number, limited to the unit interval.
pub open spec fn share(x: Binary32, whole: int) -> Binary32 {
    x.div_spec(Binary32::of_int(whole)).clamp01_spec()
}

pub open spec fn flag(b: bool) -> Binary32 {
    Binary32::of_int(
        if b {
            1
        } else {
            0
        },
    )
}

/// A merchant is among those that the customer knows.
pub open spec fn is_known(merchants: Seq<String>, id: Seq<char>) -> bool {
    exists|i: int| 0 <= i < merchants.len() && (#[trigger] merchants[i])@ == id
}

/// The minutes since the last transaction, as a share of a day; the sentinel where there is
/// none.
pub open spec fn recency(last: Option<LastTransaction>, now: Seq<u8>) -> Binary32 {
    match last {
        Some(l) => share(minutes_of(encode_utf8(l.timestamp@), now), 1440),
        None => Binary32 { bits: SENTINEL_BITS },
    }
}

/// The distance from the last transaction, as a share of a thousand kilometres; the sentinel
/// where there is none.
pub open spec fn travel(last: Option<LastTransaction>) -> Binary32 {
    match last {
        Some(l) => share(l.km_from_current, 1000),
        None => Binary32 { bits: SENTINEL_BITS },
    }
}

/// The features of a transaction.
pub open spec fn features(p: TransactionPayload, mcc_risk: MccRisk) -> Seq<Binary32> {
    let now = encode_utf8(p.transaction.requested_at@);
    seq![
        share(p.transaction.amount, 10000),
        share(Binary32::of_int(p.transaction.installments as int), 12),
        share(p.transaction.amount.div_spec(p.customer.avg_amount), 10),
        Binary32::of_int(hour_of(now) as int).div_spec(Binary32::of_int(23)),
        Binary32::of_int(
            weekday_of(
                or_default(parsed_range(now, 0, 4), 1970),
                or_default(parsed_range(now, 5, 7), 1),
                or_default(parsed_range(now, 8, 10), 1),
            ),
        ).div_spec(Binary32::of_int(6)),
        recency(p.last_transaction, now),
        travel(p.last_transaction),
        share(p.terminal.km_from_home, 1000),
        share(Binary32::of_int(p.customer.tx_count_24h as int), 20),
        flag(p.terminal.is_online),
        flag(p.terminal.card_present),
        flag(!is_known(p.customer.known_merchants@, p.merchant.id@)),
        mcc_risk.score_spec(p.merchant.mcc@),
        share(p.merchant.avg_amount, 10000),
    ]
}

/// Transforms a transaction into its feature vector.
pub fn vectorize(payload: &TransactionPayload, mcc_risk: &MccRisk) -> (r: [Binary32; 14])
    ensures
        r@ == features(*payload, *mcc_risk),
        r@[9].bits == if payload.terminal.is_online {
            ONE_BITS
        } else {
            0
        },
        r@[10].bits == if payload.terminal.card_present {
            ONE_BITS
        } else {
            0
        },
{
    let t = &payload.transaction;
    let c = &payload.customer;
    let m = &payload.merchant;
    let term = &payload.terminal;
    let ten_thousand = Binary32::from_u32(10_000);
    let thousand = Binary32::from_u32(1_000);
    let (since_last, km_from_last) = match &payload.last_transaction {
        Some(l) => (
            clamp01(
                minutes_between(l.timestamp.as_str(), t.requested_at.as_str()).div(
                    Binary32::from_u32(1_440),
                ),
            ),
            clamp01(l.km_from_current.div(thousand)),
        ),
        None => (Binary32 { bits: SENTINEL_BITS }, Binary32 { bits: SENTINEL_BITS }),
    };
    let known = contains(&c.known_merchants, &m.id);
    let r: [Binary32; 14] = [
        // Amount relative to the largest expected.
        clamp01(t.amount.div(ten_thousand)),
        // Twelve instalments map to one.
        clamp01(Binary32::from_u32(t.installments).div(Binary32::from_u32(12))),
        // How many multiples of the customer's average this is.
        clamp01(t.amount.div(c.avg_amount).div(Binary32::from_u32(10))),
        Binary32::from_u32(hour_utc(t.requested_at.as_str())).div(Binary32::from_u32(23)),
        Binary32::from_u32(weekday_utc(t.requested_at.as_str())).div(Binary32::from_u32(6)),
        since_last,
        km_from_last,
        clamp01(term.km_from_home.div(thousand)),
        // Twenty transactions in a day map to one.
        clamp01(Binary32::from_u32(c.tx_count_24h).div(Binary32::from_u32(20))),
        bit(term.is_online),
        bit(term.card_present),
        // One means that the customer does not know the merchant.
        bit(!known),
        mcc_risk.score(m.mcc.as_str()),
        clamp01(m.avg_amount.div(ten_thousand)),
    ];
    assert(r@ =~= features(*payload, *mcc_risk));
    proof {
        lemma_flag_in_unit(true);
    }
    r
}

fn bit(b: bool) -> (r: Binary32)
    ensures
        r == flag(b),
{
    if b {
        Binary32::from_u32(1)
    } else {
        Binary32::from_u32(0)
    }
}

fn contains(merchants: &Vec<String>, id: &String) -> (r: bool)
    ensures
        r == is_known(merchants@, id@),
{
    let mut i: usize = 0;
    while i < merchants.len()
        invariant
            i <= merchants@.len(),
            forall|j: int| 0 <= j < i ==> (#[trigger] merchants@[j])@ != id@,
        decreases merchants.len() - i,
    {
        if merchants[i] == *id {
            return true;
        }
        i = i + 1;
    }
    false
}

// ── Calendar laws ────────────────────────────────────────────────────────────

pub open spec fn is_leap(y: int) -> bool {
    y % 4 == 0 && (y % 100 != 0 || y % 400 == 0)
}

/// The number of days of a month.
pub open spec fn month_days(y: int, m: int) -> int {
    if m == 2 {
        if is_leap(y) {
            29
        } else {
            28
        }
    } else if m == 4 || m == 6 || m == 9 || m == 11 {
        30
    } else {
        31
    }
}

/// The days of the years before a year that starts in March, counted from year zero.
spec fn cycle_days(n: int) -> int {
    365 * n + n / 4 - n / 100 + n / 400
}

/// The days of a year that starts in March before its month `m`.
spec fn month_start(m: int) -> int {
    if m == 1 {
        306
    } else if m == 2 {
        337
    } else if m == 3 {
        0
    } else if m == 4 {
        31
    } else if m == 5 {
        61
    } else if m == 6 {
        92
    } else if m == 7 {
        122
    } else if m == 8 {
        153
    } else if m == 9 {
        184
    } else if m == 10 {
        214
    } else if m == 11 {
        245
    } else {
        275
    }
}

/// The year that starts in March and holds a month, counted from 4801 BC.
spec fn cycle_year(y: int, m: int) -> int {
    if m < 3 {
        y + 4799
    } else {
        y + 4800
    }
}

/// January and February are the last months of a year that starts in March.
#[verifier::spinoff_prover]
proof fn lemma_month_start(m: int)
    requires
        1 <= m <= 12,
    ensures
        quotient(14 - m, 12) == (if m < 3 {
            1int
        } else {
            0
        }),
        quotient(153 * (m + 12 * quotient(14 - m, 12) - 3) + 2, 5) == month_start(m),
{
}

#[verifier::spinoff_prover]
proof fn lemma_epoch_days_parts(y: int, m: int, d: int)
    requires
        1 <= m <= 12,
        cycle_year(y, m) >= 0,
    ensures
        epoch_days(y, m, d) == d + month_start(m) + cycle_days(cycle_year(y, m)) - 32045 - 2440588,
{
    lemma_month_start(m);
}

/// The days of a year from March on are those of the February that ends it.
#[verifier::spinoff_prover]
proof fn lemma_cycle_step(y: int)
    requires
        y >= -4799,
    ensures
        cycle_days(y + 4800) - cycle_days(y + 4799) == 337 + month_days(y, 2),
{
    let n = y + 4800;
    assert(n % 4 == y % 4);
    assert(n % 100 == y % 100);
    assert(n % 400 == y % 400);
    assert(n / 4 - (n - 1) / 4 == if n % 4 == 0 {
        1int
    } else {
        0
    });
    assert(n / 100 - (n - 1) / 100 == if n % 100 == 0 {
        1int
    } else {
        0
    });
    assert(n / 400 - (n - 1) / 400 == if n % 400 == 0 {
        1int
    } else {
        0
    });
    assert(n % 400 == 0 ==> n % 100 == 0);
    assert(n % 100 == 0 ==> n % 4 == 0);
}

/// The epoch is day zero, each day follows the one before, each month starts after the last day
/// of the month before, and each year after the last of December.
#[verifier::spinoff_prover]
pub proof fn law_days_follow_calendar(y: int, m: int, d: int)
    requires
        y >= -4799 || (y == -4800 && m >= 3),
        1 <= m <= 12,
    ensures
        epoch_days(1970, 1, 1) == 0,
        epoch_days(y, m, d + 1) == epoch_days(y, m, d) + 1,
        m < 12 ==> epoch_days(y, m + 1, 1) == epoch_days(y, m, month_days(y, m)) + 1,
        m == 12 ==> epoch_days(y + 1, 1, 1) == epoch_days(y, 12, 31) + 1,
{
    lemma_epoch_days_parts(1970, 1, 1);
    lemma_epoch_days_parts(y, m, d);
    lemma_epoch_days_parts(y, m, d + 1);
    lemma_epoch_days_parts(y, m, month_days(y, m));
    if m < 12 {
        lemma_epoch_days_parts(y, m + 1, 1);
        if m == 2 {
            lemma_cycle_step(y);
        }
    } else {
        lemma_epoch_days_parts(y + 1, 1, 1);
    }
}

/// The day of the week of a date is that of its distance from the epoch, a Thursday.
#[verifier::spinoff_prover]
pub proof fn law_weekday_follows_calendar(y: int, mo: int, d: int)
    requires
        y >= 1 || (y == 0 && mo >= 3),
        1 <= mo <= 12,
    ensures
        weekday_of(y, mo, d) == (epoch_days(y, mo, d) + 3) % 7,
{
    let y1 = if mo < 3 {
        y - 1
    } else {
        y
    };
    let ya = y1 + 4800;
    assert(ya / 4 == y1 / 4 + 1200);
    assert(ya / 100 == y1 / 100 + 48);
    assert(ya / 400 == y1 / 400 + 12);
    let leaps = y1 / 4 - y1 / 100 + y1 / 400;
    let n = y1 + leaps + month_shift(mo) + d;
    let a = if mo < 3 {
        1int
    } else {
        0
    };
    assert(quotient(14 - mo, 12) == a);
    let m_adj = mo + 12 * a - 3;
    let in_year = (153 * m_adj + 2) / 5;
    let e = d + in_year + 365 * ya + leaps + 1200 - 48 + 12 - 32045 - 2440588;
    assert(epoch_days(y, mo, d) == e);
    // 365 is one more than a multiple of seven.
    let c = in_year - month_shift(mo) + 364 * 4800 + 4800 + 1200 - 48 + 12 - 32045 - 2440588 - 3;
    assert(e + 3 == n + 6 + 364 * y1 + c);
    assert(c % 7 == 0);
    assert((e + 3) % 7 == (n + 6) % 7);
}

// ── Range of the features ────────────────────────────────────────────────────

/// A number of the unit interval.
pub open spec fn in_unit(x: Binary32) -> bool {
    x.low() <= ONE_BITS && x.order_key() >= 0
}

/// A payload whose numbers are numbers, of a customer with an average other than zero.
pub open spec fn is_regular(p: TransactionPayload) -> bool {
    &&& !p.transaction.amount.is_nan_spec()
    &&& p.customer.avg_amount.is_finite_spec()
    &&& p.customer.avg_amount.low() != 0
    &&& !p.merchant.avg_amount.is_nan_spec()
    &&& !p.terminal.km_from_home.is_nan_spec()
    &&& p.last_transaction matches Some(l) ==> !l.km_from_current.is_nan_spec()
}

proof fn lemma_share_in_unit(x: Binary32, whole: int)
    requires
        !x.is_nan_spec(),
        0 < whole < 0x100_0000,
    ensures
        in_unit(share(x, whole)),
{
    lemma_of_int_not_zero(whole);
    lemma_quotient_is_number(x, Binary32::of_int(whole));
}

proof fn lemma_of_int_is_number(n: int)
    ensures
        !Binary32::of_int(n).is_nan_spec(),
{
    let m = (if n < 0 {
        -n
    } else {
        n
    }) as nat;
    lemma_nearest_bound(m * vstd::arithmetic::power2::pow2(149), 1);
}

pub proof fn lemma_flag_in_unit(b: bool)
    ensures
        in_unit(flag(b)),
        flag(true).bits == ONE_BITS,
        flag(false).bits == 0,
{
    let one = Binary32::of_int(1);
    lemma_of_int_exact(1);
    lemma_of_int_exact(0);
    let x = Binary32 { bits: ONE_BITS };
    vstd::arithmetic::power2::lemma2_to64();
    vstd::arithmetic::power2::lemma_pow2_adds(23, 126);
    assert(x.significand() == 0x80_0000 && x.scale() == 126);
    let unit = vstd::arithmetic::power2::pow2(149);
    assert(x.magnitude() == unit) by (nonlinear_arith)
        requires
            x.magnitude() == x.significand() * vstd::arithmetic::power2::pow2(x.scale()),
            x.significand() == 0x80_0000,
            unit == 0x80_0000 * vstd::arithmetic::power2::pow2(x.scale()),
    ;
    assert(one.magnitude() == unit) by (nonlinear_arith)
        requires
            one.magnitude() == 1 * unit,
    ;
    crate::binary32::lemma_magnitude_order(one, x);
    assert(one.low() == ONE_BITS);
    let zero = Binary32::of_int(0);
    let z = Binary32 { bits: 0 };
    assert(z.magnitude() == 0) by (nonlinear_arith)
        requires
            z.magnitude() == z.significand() * vstd::arithmetic::power2::pow2(z.scale()),
            z.significand() == 0,
    ;
    assert(0 * vstd::arithmetic::power2::pow2(149) == 0);
    crate::binary32::lemma_magnitude_order(zero, z);
    assert(zero.low() == 0);
    assert(one.bits == one.low() && zero.bits == zero.low());
}

/// Every feature of a regular payload lies in the unit interval, but for the two that speak of
/// the last transaction: without one, these are the sentinel.
pub proof fn law_features_in_range(p: TransactionPayload, mcc_risk: MccRisk, i: int)
    requires
        is_regular(p),
        in_unit(mcc_risk.score_spec(p.merchant.mcc@)),
        0 <= i < 14,
    ensures
        features(p, mcc_risk).len() == 14,
        if (i == 5 || i == 6) && p.last_transaction is None {
            features(p, mcc_risk)[i].bits == SENTINEL_BITS
        } else {
            in_unit(features(p, mcc_risk)[i])
        },
{
    let now = encode_utf8(p.transaction.requested_at@);
    let f = features(p, mcc_risk);
    if i == 0 {
        lemma_share_in_unit(p.transaction.amount, 10000);
    } else if i == 1 {
        lemma_of_int_is_number(p.transaction.installments as int);
        lemma_share_in_unit(Binary32::of_int(p.transaction.installments as int), 12);
    } else if i == 2 {
        lemma_quotient_is_number(p.transaction.amount, p.customer.avg_amount);
        lemma_share_in_unit(p.transaction.amount.div_spec(p.customer.avg_amount), 10);
    } else if i == 3 {
        lemma_share_of_whole(hour_of(now) as nat, 23);
    } else if i == 4 {
        let w = weekday_of(
            or_default(parsed_range(now, 0, 4), 1970),
            or_default(parsed_range(now, 5, 7), 1),
            or_default(parsed_range(now, 8, 10), 1),
        );
        assert(0 <= w <= 6);
        lemma_share_of_whole(w as nat, 6);
    } else if i == 5 {
        if let Some(l) = p.last_transaction {
            let m = quotient(epoch_seconds(now) - epoch_seconds(encode_utf8(l.timestamp@)), 60);
            lemma_of_int_is_number(m);
            lemma_share_in_unit(minutes_of(encode_utf8(l.timestamp@), now), 1440);
        }
    } else if i == 6 {
        if let Some(l) = p.last_transaction {
            lemma_share_in_unit(l.km_from_current, 1000);
        }
    } else if i == 7 {
        lemma_share_in_unit(p.terminal.km_from_home, 1000);
    } else if i == 8 {
        lemma_of_int_is_number(p.customer.tx_count_24h as int);
        lemma_share_in_unit(Binary32::of_int(p.customer.tx_count_24h as int), 20);
    } else if i == 9 {
        lemma_flag_in_unit(p.terminal.is_online);
    } else if i == 10 {
        lemma_flag_in_unit(p.terminal.card_present);
    } else if i == 11 {
        lemma_flag_in_unit(!is_known(p.customer.known_merchants@, p.merchant.id@));
    } else if i == 13 {
        lemma_share_in_unit(p.merchant.avg_amount, 10000);
    }
}

} // verus!
