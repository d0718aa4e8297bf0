//! Feature vectors of payloads.

use fraud_api::binary32::Binary32;
use fraud_api::models::{
    CustomerInfo, LastTransaction, MccRisk, MerchantInfo, TerminalInfo, TransactionInfo,
    TransactionPayload,
};
use fraud_api::vectorizer::{
    days_since_unix_epoch, hour_utc, iso8601_to_secs, minutes_between, parse_digits,
    parse_range_digits, vectorize, weekday_utc,
};

fn single(x: f32) -> Binary32 {
    Binary32 { bits: x.to_bits() }
}

fn float(x: Binary32) -> f32 {
    f32::from_bits(x.bits)
}

fn clamp01(x: f32) -> f32 {
    float(fraud_api::vectorizer::clamp01(single(x)))
}

fn load_mcc_risk() -> MccRisk {
    MccRisk::load(vec![
        ("5411".to_string(), single(0.15)),
        ("7995".to_string(), single(0.85)),
        ("7802".to_string(), single(0.75)),
    ])
}

fn assert_vec_approx(got: [f32; 14], expected: [f32; 14], tol: f32) {
    for (i, (g, e)) in got.iter().zip(expected.iter()).enumerate() {
        assert!(
            (g - e).abs() < tol,
            "dim[{i}]: got {g:.6}, expected {e:.6} (diff {:.6})",
            (g - e).abs()
        );
    }
}

fn strings(names: &[&str]) -> Vec<String> {
    names.iter().map(|s| s.to_string()).collect()
}

fn legit() -> TransactionPayload {
    TransactionPayload {
        id: "tx-1329056812".to_string(),
        transaction: TransactionInfo {
            amount: single(41.12),
            installments: 2,
            requested_at: "2026-03-11T18:45:53Z".to_string(),
        },
        customer: CustomerInfo {
            avg_amount: single(82.24),
            tx_count_24h: 3,
            known_merchants: strings(&["MERC-003", "MERC-016"]),
        },
        merchant: MerchantInfo {
            id: "MERC-016".to_string(),
            mcc: "5411".to_string(),
            avg_amount: single(60.25),
        },
        terminal: TerminalInfo {
            is_online: false,
            card_present: true,
            km_from_home: single(29.2331036248),
        },
        last_transaction: None,
    }
}

fn fraud() -> TransactionPayload {
    TransactionPayload {
        id: "tx-3330991687".to_string(),
        transaction: TransactionInfo {
            amount: single(9505.97),
            installments: 10,
            requested_at: "2026-03-14T05:15:12Z".to_string(),
        },
        customer: CustomerInfo {
            avg_amount: single(81.28),
            tx_count_24h: 20,
            known_merchants: strings(&["MERC-008", "MERC-007", "MERC-005"]),
        },
        merchant: MerchantInfo {
            id: "MERC-068".to_string(),
            mcc: "7802".to_string(),
            avg_amount: single(54.86),
        },
        terminal: TerminalInfo {
            is_online: false,
            card_present: true,
            km_from_home: single(952.27),
        },
        last_transaction: None,
    }
}

fn with_last_tx() -> TransactionPayload {
    TransactionPayload {
        id: "tx-3576980410".to_string(),
        transaction: TransactionInfo {
            amount: single(384.88),
            installments: 3,
            requested_at: "2026-03-11T20:23:35Z".to_string(),
        },
        customer: CustomerInfo {
            avg_amount: single(769.76),
            tx_count_24h: 3,
            known_merchants: strings(&["MERC-009", "MERC-001"]),
        },
        merchant: MerchantInfo {
            id: "MERC-001".to_string(),
            mcc: "5912".to_string(),
            avg_amount: single(298.95),
        },
        terminal: TerminalInfo {
            is_online: false,
            card_present: true,
            km_from_home: single(13.7090520965),
        },
        last_transaction: Some(LastTransaction {
            timestamp: "2026-03-11T14:58:35Z".to_string(),
            km_from_current: single(18.8626479774),
        }),
    }
}

#[test]
fn vectorize_legit_payload_matches_expected() {
    let mcc = load_mcc_risk();
    let got = vectorize(&legit(), &mcc).map(float);

    let expected = [
        0.004112,    // [0]  41.12 / 10000
        0.166667,    // [1]  2 / 12
        0.05,        // [2]  (41.12/82.24)/10 = 0.5/10
        18.0 / 23.0, // [3]  hour 18
        2.0 / 6.0,   // [4]  Wednesday (2026-03-11)
        -1.0,        // [5]  sentinel
        -1.0,        // [6]  sentinel
        0.029233,    // [7]  29.2331/1000
        0.15,        // [8]  3/20
        0.0,         // [9]  is_online=false
        1.0,         // [10] card_present=true
        0.0,         // [11] MERC-016 is known
        0.15,        // [12] mcc_risk["5411"]
        0.006025,    // [13] 60.25/10000
    ];

    assert_vec_approx(got, expected, 0.0001);
}

#[test]
fn vectorize_fraud_payload_matches_expected() {
    let mcc = load_mcc_risk();
    let got = vectorize(&fraud(), &mcc).map(float);

    let expected = [
        0.950597,    // [0]  9505.97/10000
        10.0 / 12.0, // [1]  10/12
        1.0,         // [2]  clamped: (9505.97/81.28)/10 >> 1.0
        5.0 / 23.0,  // [3]  hour 5
        5.0 / 6.0,   // [4]  Saturday (2026-03-14)
        -1.0,        // [5]  sentinel
        -1.0,        // [6]  sentinel
        0.95227,     // [7]  952.27/1000
        1.0,         // [8]  20/20
        0.0,         // [9]  is_online=false
        1.0,         // [10] card_present=true
        1.0,         // [11] MERC-068 is unknown
        0.75,        // [12] mcc_risk["7802"]
        0.005486,    // [13] 54.86/10000
    ];

    assert_vec_approx(got, expected, 0.0001);
}

#[test]
fn vectorize_dims_5_and_6_with_last_transaction() {
    let mcc = load_mcc_risk();
    let got = vectorize(&with_last_tx(), &mcc).map(float);

    // 20:23:35 − 14:58:35 = 5h25m = 325 minutes
    let expected_dim5 = 325.0_f32 / 1440.0;
    // km_from_current = 18.8626479774
    let expected_dim6 = 18.8626479774_f32 / 1000.0;

    assert!((got[5] - expected_dim5).abs() < 0.0001, "dim[5] got {:.6}", got[5]);
    assert!((got[6] - expected_dim6).abs() < 0.0001, "dim[6] got {:.6}", got[6]);
    // Sentinels must NOT appear when last_transaction is present
    assert!(got[5] >= 0.0, "dim[5] must not be sentinel");
    assert!(got[6] >= 0.0, "dim[6] must not be sentinel");
}

#[test]
fn hour_utc_extracts_correct_values() {
    assert_eq!(hour_utc("2026-03-11T18:45:53Z"), 18);
    assert_eq!(hour_utc("2026-03-14T00:00:00Z"), 0);
    assert_eq!(hour_utc("2026-03-14T05:15:12Z"), 5);
    assert_eq!(hour_utc("2026-03-11T23:59:59Z"), 23);
}

#[test]
fn weekday_utc_returns_correct_competition_values() {
    // 2026-03-11 = Wednesday = 2 (Mon=0)
    assert_eq!(weekday_utc("2026-03-11T18:45:53Z"), 2);
    // 2026-03-14 = Saturday = 5
    assert_eq!(weekday_utc("2026-03-14T05:15:12Z"), 5);
    // 2026-03-15 = Sunday = 6
    assert_eq!(weekday_utc("2026-03-15T00:00:00Z"), 6);
    // 2026-03-16 = Monday = 0
    assert_eq!(weekday_utc("2026-03-16T00:00:00Z"), 0);
    // 2026-03-17 = Tuesday = 1
    assert_eq!(weekday_utc("2026-03-17T02:04:06Z"), 1);
}

#[test]
fn clamp01_boundary_values() {
    assert_eq!(clamp01(-1.0), 0.0);
    assert_eq!(clamp01(0.0), 0.0);
    assert_eq!(clamp01(0.5), 0.5);
    assert_eq!(clamp01(1.0), 1.0);
    assert_eq!(clamp01(1.5), 1.0);
}

#[test]
fn features_match_the_machine() {
    let mcc = load_mcc_risk();
    let got = vectorize(&legit(), &mcc).map(float);
    assert_eq!(got[0], 41.12f32 / 10_000.0);
    assert_eq!(got[1], 2.0f32 / 12.0);
    assert_eq!(got[2], (41.12f32 / 82.24) / 10.0);
    assert_eq!(got[3], 18.0f32 / 23.0);
    assert_eq!(got[4], 2.0f32 / 6.0);
    assert_eq!(got[7], 29.2331036248f32 / 1_000.0);
    assert_eq!(got[8], 3.0f32 / 20.0);
    assert_eq!(got[13], 60.25f32 / 10_000.0);
    let got = vectorize(&with_last_tx(), &mcc).map(float);
    assert_eq!(got[5], 325.0f32 / 1_440.0);
    assert_eq!(got[6], 18.8626479774f32 / 1_000.0);
    assert_eq!(got[12], 0.5);
}

#[test]
fn features_stay_in_range() {
    let mcc = load_mcc_risk();
    let mut p = fraud();
    p.transaction.amount = single(f32::MAX);
    p.transaction.installments = u32::MAX;
    p.customer.tx_count_24h = u32::MAX;
    p.merchant.avg_amount = single(-5.0);
    p.terminal.km_from_home = single(f32::INFINITY);
    for (i, x) in vectorize(&p, &mcc).map(float).into_iter().enumerate() {
        assert!(i == 5 || i == 6 || (0.0..=1.0).contains(&x), "dim[{i}] = {x}");
    }
}

#[test]
fn digits_are_parsed_or_refused() {
    assert_eq!(parse_digits(b"2026"), Some(2026));
    assert_eq!(parse_digits(b"007"), Some(7));
    assert_eq!(parse_digits(b""), None);
    assert_eq!(parse_digits(b"12a"), None);
    assert_eq!(parse_digits(b"-1"), None);
    // What is too large stays at the largest.
    assert_eq!(parse_digits(b"4294967295"), Some(u32::MAX));
    assert_eq!(parse_digits(b"4294967296"), Some(u32::MAX));
    assert_eq!(parse_digits(b"99999999999999999999"), Some(u32::MAX));
    assert_eq!(parse_range_digits("2026-03-11", 5, 7), Some(3));
    assert_eq!(parse_range_digits("2026", 5, 7), None);
    assert_eq!(parse_range_digits("2026", 3, 2), None);
}

#[test]
fn malformed_timestamps_have_defaults() {
    assert_eq!(hour_utc(""), 0);
    assert_eq!(hour_utc("2026-03-11T99:00:00Z"), 0);
    assert_eq!(iso8601_to_secs(""), 0);
    assert_eq!(iso8601_to_secs("1970-01-01T00:00:00Z"), 0);
    // Month and day are limited to what a calendar has.
    assert_eq!(iso8601_to_secs("1970-00-00T00:00:00Z"), 0);
    assert_eq!(
        iso8601_to_secs("1970-99-99T99:99:99Z"),
        iso8601_to_secs("1970-12-31T23:59:59Z")
    );
}

#[test]
fn seconds_count_from_the_epoch() {
    assert_eq!(iso8601_to_secs("1970-01-02T00:00:01Z"), 86_401);
    assert_eq!(iso8601_to_secs("2000-01-01T00:00:00Z"), 946_684_800);
    assert_eq!(iso8601_to_secs("2026-03-11T18:45:53Z"), 1_773_254_753);
    assert_eq!(iso8601_to_secs("1969-12-31T23:59:59Z"), -1);
    assert_eq!(float(minutes_between("2026-03-11T14:58:35Z", "2026-03-11T20:23:35Z")), 325.0);
    assert_eq!(float(minutes_between("2026-03-11T00:00:59Z", "2026-03-11T00:00:00Z")), 0.0);
    assert_eq!(float(minutes_between("2026-03-11T00:02:00Z", "2026-03-11T00:00:00Z")), -2.0);
}

#[test]
fn days_follow_the_calendar() {
    let lengths = [31, 28, 31, 30, 31, 30, 31, 31, 30, 31, 30, 31];
    let mut day = days_since_unix_epoch(1890, 1, 1);
    for y in 1890..2110i64 {
        let leap = y % 4 == 0 && (y % 100 != 0 || y % 400 == 0);
        for m in 1..=12i64 {
            let n = lengths[m as usize - 1] + (leap && m == 2) as i64;
            for d in 1..=n {
                assert_eq!(days_since_unix_epoch(y, m, d), day, "{y}-{m}-{d}");
                let iso = format!("{y:04}-{m:02}-{d:02}T00:00:00Z");
                // The epoch was a Thursday.
                assert_eq!(weekday_utc(&iso) as i64, (day + 3).rem_euclid(7), "{iso}");
                day += 1;
            }
        }
    }
    assert_eq!(days_since_unix_epoch(1970, 1, 1), 0);
}
