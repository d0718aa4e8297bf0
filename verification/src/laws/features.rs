//! What each feature of a transaction tells.

use vstd::prelude::*;
#[allow(unused_imports)]
use vstd::utf8::encode_utf8;

#[allow(unused_imports)]
use crate::binary32::Binary32;
#[allow(unused_imports)]
use crate::models::{MccRisk, TransactionPayload};
#[allow(unused_imports)]
use crate::vectorizer::{
    decimal_value, epoch_days, epoch_seconds, features, hour_of, is_digit,
    law_days_follow_calendar, law_weekday_follows_calendar, lemma_flag_in_unit, minutes_of,
    month_days, parsed, parsed_range, quotient, weekday_of,
};

verus! {

// ── Flags ────────────────────────────────────────────────────────────────────

/// Three features are one or zero: whether the terminal is online, whether the card is present,
/// and whether the merchant is none of those that the customer knows. Nothing else in the payload
/// matters to them.
pub proof fn law_flags_tell_their_field(p: TransactionPayload, mcc_risk: MccRisk)
    ensures
        features(p, mcc_risk).len() == 14,
        features(p, mcc_risk)[9].bits == if p.terminal.is_online {
            0x3F80_0000u32
        } else {
            0
        },
        features(p, mcc_risk)[10].bits == if p.terminal.card_present {
            0x3F80_0000u32
        } else {
            0
        },
        (exists|i: int|
            0 <= i < p.customer.known_merchants@.len()
                && (#[trigger] p.customer.known_merchants@[i])@ == p.merchant.id@) ==> features(
            p,
            mcc_risk,
        )[11].bits == 0,
        (forall|i: int|
            0 <= i < p.customer.known_merchants@.len() ==> (
            #[trigger] p.customer.known_merchants@[i])@ != p.merchant.id@) ==> features(
            p,
            mcc_risk,
        )[11].bits == 0x3F80_0000,
{
    lemma_flag_in_unit(true);
}

/// Each feature is told by its own fields: where these agree, the features do, whatever the rest
/// of the two payloads is.
#[verifier::spinoff_prover]
pub proof fn law_features_have_their_own_fields(
    p: TransactionPayload,
    q: TransactionPayload,
    mcc_risk: MccRisk,
)
    ensures
        ({
            let (f, g) = (features(p, mcc_risk), features(q, mcc_risk));
            let same_time = p.transaction.requested_at@ == q.transaction.requested_at@;
            &&& p.transaction.amount == q.transaction.amount ==> f[0] == g[0]
            &&& p.transaction.installments == q.transaction.installments ==> f[1] == g[1]
            &&& p.transaction.amount == q.transaction.amount && p.customer.avg_amount
                == q.customer.avg_amount ==> f[2] == g[2]
            &&& same_time ==> f[3] == g[3] && f[4] == g[4]
            &&& same_time && (p.last_transaction is None <==> q.last_transaction is None) && (
            p.last_transaction is Some ==> p.last_transaction->0.timestamp@
                == q.last_transaction->0.timestamp@) ==> f[5] == g[5]
            &&& (p.last_transaction is None <==> q.last_transaction is None) && (
            p.last_transaction is Some ==> p.last_transaction->0.km_from_current
                == q.last_transaction->0.km_from_current) ==> f[6] == g[6]
            &&& p.terminal.km_from_home == q.terminal.km_from_home ==> f[7] == g[7]
            &&& p.customer.tx_count_24h == q.customer.tx_count_24h ==> f[8] == g[8]
            &&& p.terminal.is_online == q.terminal.is_online ==> f[9] == g[9]
            &&& p.terminal.card_present == q.terminal.card_present ==> f[10] == g[10]
            &&& p.customer.known_merchants@ == q.customer.known_merchants@ && p.merchant.id@
                == q.merchant.id@ ==> f[11] == g[11]
            &&& p.merchant.mcc@ == q.merchant.mcc@ ==> f[12] == g[12]
            &&& p.merchant.avg_amount == q.merchant.avg_amount ==> f[13] == g[13]
        }),
{
}

// ── Shares ───────────────────────────────────────────────────────────────────

/// `r` is the number in the unit interval that is nearest to `x`: `x` itself where it lies there,
/// zero or one where it lies below or above, and `x` where it is not a number.
pub open spec fn cut_to_unit(r: Binary32, x: Binary32) -> bool {
    &&& x.bits % 0x8000_0000 > 0x7F80_0000 ==> r == x
    &&& x.bits % 0x8000_0000 <= 0x7F80_0000 ==> {
        &&& x.bits <= 0x3F80_0000 || x.bits == 0x8000_0000 ==> r == x
        &&& 0x3F80_0000 < x.bits <= 0x7F80_0000 ==> r.bits == 0x3F80_0000
        &&& x.bits > 0x8000_0000 ==> r.bits == 0
    }
}

proof fn lemma_cut(x: Binary32)
    ensures
        cut_to_unit(x.clamp01_spec(), x),
        x.clamp01_spec().bits != 0xBF80_0000,
{
}

/// The amounts, counts and distances are told as shares: of 10000 for the amounts, of twelve
/// instalments, of ten times the customer's average, of 1000 kilometres and of twenty
/// transactions, each cut to the unit interval.
pub proof fn law_shares(p: TransactionPayload, mcc_risk: MccRisk)
    ensures
        ({
            let f = features(p, mcc_risk);
            let amount = p.transaction.amount;
            let ten_thousand = Binary32::of_int(10000);
            &&& cut_to_unit(f[0], amount.div_spec(ten_thousand))
            &&& cut_to_unit(
                f[1],
                Binary32::of_int(p.transaction.installments as int).div_spec(Binary32::of_int(12)),
            )
            &&& cut_to_unit(
                f[2],
                amount.div_spec(p.customer.avg_amount).div_spec(Binary32::of_int(10)),
            )
            &&& cut_to_unit(f[7], p.terminal.km_from_home.div_spec(Binary32::of_int(1000)))
            &&& cut_to_unit(
                f[8],
                Binary32::of_int(p.customer.tx_count_24h as int).div_spec(Binary32::of_int(20)),
            )
            &&& cut_to_unit(f[13], p.merchant.avg_amount.div_spec(ten_thousand))
        }),
{
}

/// The last transaction is told by how long ago and how far away it was, as shares of 1440
/// minutes and of 1000 kilometres cut to the unit interval; both features are minus one where
/// there is none, and only there.
pub proof fn law_last_transaction(p: TransactionPayload, mcc_risk: MccRisk)
    ensures
        ({
            let f = features(p, mcc_risk);
            match p.last_transaction {
                None => f[5].bits == 0xBF80_0000 && f[6].bits == 0xBF80_0000,
                Some(l) => {
                    &&& cut_to_unit(f[6], l.km_from_current.div_spec(Binary32::of_int(1000)))
                    &&& cut_to_unit(
                        f[5],
                        minutes_of(
                            encode_utf8(l.timestamp@),
                            encode_utf8(p.transaction.requested_at@),
                        ).div_spec(Binary32::of_int(1440)),
                    )
                    &&& f[5].bits != 0xBF80_0000 && f[6].bits != 0xBF80_0000
                },
            }
        }),
{
    if let Some(l) = p.last_transaction {
        lemma_cut(
            minutes_of(
                encode_utf8(l.timestamp@),
                encode_utf8(p.transaction.requested_at@),
            ).div_spec(Binary32::of_int(1440)),
        );
        lemma_cut(l.km_from_current.div_spec(Binary32::of_int(1000)));
    }
}

/// The risk of the merchant's category is told as it stands in the table, and as a half where it
/// does not.
pub proof fn law_risk_is_told(p: TransactionPayload, mcc_risk: MccRisk)
    ensures
        mcc_risk@.contains_key(p.merchant.mcc@) ==> features(p, mcc_risk)[12]
            == mcc_risk@[p.merchant.mcc@],
        !mcc_risk@.contains_key(p.merchant.mcc@) ==> features(p, mcc_risk)[12].bits == 0x3F00_0000,
{
}

// ── Time ─────────────────────────────────────────────────────────────────────

/// A number is read from a range of bytes digit by digit: it is what is read from the range
/// without its last byte, times ten, plus the last digit, up to the largest 32-bit number. There
/// is none where a byte is no digit, where the range is empty, or where it does not lie within
/// the text.
pub proof fn law_numbers_are_read_by_digits(b: Seq<u8>, start: int, end: int)
    ensures
        !(0 <= start < end <= b.len()) ==> parsed_range(b, start, end) is None,
        0 <= start < end <= b.len() ==> {
            let last = b[end - 1] - 0x30;
            let before = if start == end - 1 {
                Some(0u32)
            } else {
                parsed_range(b, start, end - 1)
            };
            &&& !(0 <= last <= 9) ==> parsed_range(b, start, end) is None
            &&& before is None ==> parsed_range(b, start, end) is None
            &&& 0 <= last <= 9 && before is Some ==> parsed_range(b, start, end) == Some(
                if 10 * before->0 + last <= 0xFFFF_FFFF {
                    (10 * before->0 + last) as u32
                } else {
                    0xFFFF_FFFFu32
                },
            )
        },
{
    if 0 <= start < end <= b.len() {
        let s = b.subrange(start, end);
        let h = s.drop_last();
        assert(h =~= b.subrange(start, end - 1));
        assert(s.last() == b[end - 1]);
        assert forall|i: int| 0 <= i < h.len() implies h[i] == s[i] by {}
        if h.len() > 0 && parsed(h) is None {
            let i = choose|i: int| 0 <= i < h.len() && !is_digit(#[trigger] h[i]);
            assert(!is_digit(s[i]));
        }
        if h.len() == 0 {
            assert(decimal_value(h) == 0);
        }
        if !is_digit(s.last()) {
            assert(!is_digit(s[s.len() - 1]));
        } else if parsed(h) is Some || h.len() == 0 {
            assert forall|i: int| 0 <= i < s.len() implies is_digit(#[trigger] s[i]) by {
                if i < h.len() {
                    assert(is_digit(h[i]));
                }
            }
        }
    }
}

/// The hour of a timestamp is told as a share of 23: it is the number of two digits at bytes 11
/// and 12, and zero where there is none or where it is above 23.
pub proof fn law_hour(p: TransactionPayload, mcc_risk: MccRisk)
    ensures
        ({
            let now = encode_utf8(p.transaction.requested_at@);
            let h = parsed_range(now, 11, 13);
            features(p, mcc_risk)[3] == Binary32::of_int(
                if h is Some && h->0 <= 23 {
                    h->0 as int
                } else {
                    0
                },
            ).div_spec(Binary32::of_int(23))
        }),
{
}

/// The day of the week is told as a share of six, Monday being zero: it is the day of the date at
/// bytes 0 to 9, by its distance from the epoch, a Thursday. Parts that cannot be read are those
/// of the first of January 1970. January and February of the year zero are one day ahead.
pub proof fn law_weekday(p: TransactionPayload, mcc_risk: MccRisk, y: int, m: int, d: int)
    requires
        ({
            let now = encode_utf8(p.transaction.requested_at@);
            let (py, pm, pd) = (
                parsed_range(now, 0, 4),
                parsed_range(now, 5, 7),
                parsed_range(now, 8, 10),
            );
            &&& y == if py is Some {
                py->0 as int
            } else {
                1970
            }
            &&& m == if pm is Some {
                pm->0 as int
            } else {
                1
            }
            &&& d == if pd is Some {
                pd->0 as int
            } else {
                1
            }
        }),
    ensures
        ({
            let month = if m < 1 {
                1
            } else if m > 12 {
                12
            } else {
                m
            };
            let thursday = if y == 0 && m < 3 {
                4int
            } else {
                3
            };
            features(p, mcc_risk)[4] == Binary32::of_int(
                (epoch_days(y, month, d) + thursday) % 7,
            ).div_spec(Binary32::of_int(6))
        }),
{
    let month = if m < 1 {
        1
    } else if m > 12 {
        12
    } else {
        m
    };
    if y >= 1 || m >= 3 {
        law_weekday_follows_calendar(y, month, d);
    } else {
        lemma_first_months(month, d);
    }
    assert(weekday_of(y, m, d) == weekday_of(y, month, d));
}

proof fn lemma_first_months(month: int, d: int)
    requires
        1 <= month <= 2,
    ensures
        weekday_of(0, month, d) == (epoch_days(0, month, d) + 4) % 7,
{
    assert(quotient(14 - month, 12) == 1);
    assert(quotient(-1, 4) == 0 && quotient(-1, 100) == 0 && quotient(-1, 400) == 0);
    assert(quotient(4799, 4) == 1199 && quotient(4799, 100) == 47 && quotient(4799, 400) == 11);
    assert(quotient(1532, 5) == 306 && quotient(1685, 5) == 337);
}

/// The days since the epoch go by the calendar: the first of January 1970 is day zero, one day
/// more is one more, and a month later is as many more as the month has days. February has 29 in
/// every fourth year but those that 100 divides and 400 does not.
pub proof fn law_days_count_by_months(y: int, m: int, d: int)
    requires
        y >= 0,
        1 <= m <= 12,
    ensures
        epoch_days(1970, 1, 1) == 0,
        epoch_days(y, m, d + 1) - epoch_days(y, m, d) == 1,
        m == 12 ==> epoch_days(y + 1, 1, d) - epoch_days(y, 12, d) == 31,
        m == 1 || m == 3 || m == 5 || m == 7 || m == 8 || m == 10 ==> epoch_days(y, m + 1, d)
            - epoch_days(y, m, d) == 31,
        m == 4 || m == 6 || m == 9 || m == 11 ==> epoch_days(y, m + 1, d) - epoch_days(y, m, d)
            == 30,
        m == 2 ==> epoch_days(y, 3, d) - epoch_days(y, 2, d) == if y % 4 == 0 && (y % 100 != 0 || y
            % 400 == 0) {
            29int
        } else {
            28
        },
{
    law_days_follow_calendar(y, m, d);
    lemma_days_are_added(y, m, d, 1);
    lemma_days_are_added(y, m, d, month_days(y, m));
    if m < 12 {
        lemma_days_are_added(y, m + 1, d, 1);
    } else {
        lemma_days_are_added(y + 1, 1, d, 1);
        lemma_days_are_added(y, 12, d, 31);
    }
}

proof fn lemma_days_are_added(y: int, m: int, d: int, e: int)
    ensures
        epoch_days(y, m, d) - epoch_days(y, m, e) == d - e,
{
}

/// Every 400 years the calendar starts again, after 146097 days.
pub proof fn law_calendar_starts_again(y: int, m: int, d: int)
    requires
        y >= 0,
        1 <= m <= 12,
    ensures
        epoch_days(y + 400, m, d) == epoch_days(y, m, d) + 146_097,
{
    let a = quotient(14 - m, 12);
    assert(a == 0 || a == 1);
    let n = y + 4800 - a;
    assert((n + 400) / 4 == n / 4 + 100);
    assert((n + 400) / 100 == n / 100 + 4);
    assert((n + 400) / 400 == n / 400 + 1);
}

/// The seconds of a timestamp are those of its date, hour, minute and second; parts that are out
/// of range count as the nearest in range, and those that cannot be read as the first in range.
pub proof fn law_seconds(b: Seq<u8>)
    ensures
        ({
            let part = |start: int, end: int, least: int, most: int| -> int {
                let n = parsed_range(b, start, end);
                if n is None || n->0 < least {
                    least
                } else if n->0 > most {
                    most
                } else {
                    n->0 as int
                }
            };
            let year = if parsed_range(b, 0, 4) is Some {
                parsed_range(b, 0, 4)->0 as int
            } else {
                1970
            };
            epoch_seconds(b) == 86400 * epoch_days(year, part(5, 7, 1, 12), part(8, 10, 1, 31))
                + 3600 * part(11, 13, 0, 23) + 60 * part(14, 16, 0, 59) + part(17, 19, 0, 59)
        }),
{
}

/// The minutes between two timestamps are the whole minutes of the seconds between them, and
/// negative where the second is before the first.
pub proof fn law_minutes(from: Seq<u8>, to: Seq<u8>, minutes: int, seconds: int)
    requires
        0 <= seconds < 60,
        minutes >= 0,
    ensures
        epoch_seconds(to) == epoch_seconds(from) + 60 * minutes + seconds ==> minutes_of(from, to)
            == Binary32::of_int(minutes) && minutes_of(to, from) == Binary32::of_int(-minutes),
{
    let n = 60 * minutes + seconds;
    assert(n / 60 == minutes);
}

/// A number is read from a whole text as from the range that is all of it.
pub proof fn law_whole_text_is_a_range(b: Seq<u8>)
    ensures
        parsed(b) == parsed_range(b, 0, b.len() as int),
{
    assert(b.subrange(0, b.len() as int) =~= b);
}

} // verus!
