//! Payloads, decisions and the risk table.

use fraud_api::binary32::Binary32;
use fraud_api::models::{
    CustomerInfo, FraudDecision, LastTransaction, MccRisk, MerchantInfo, TerminalInfo,
    TransactionInfo, TransactionPayload,
};
use serde_json::Value;

fn single(x: f32) -> Binary32 {
    Binary32 { bits: x.to_bits() }
}

fn float(x: Binary32) -> f32 {
    f32::from_bits(x.bits)
}

fn number(v: &Value) -> Binary32 {
    single(v.as_f64().unwrap() as f32)
}

fn text(v: &Value) -> String {
    v.as_str().unwrap().to_string()
}

fn payload(json: &str) -> TransactionPayload {
    let v: Value = serde_json::from_str(json).unwrap();
    let (t, c, m) = (&v["transaction"], &v["customer"], &v["merchant"]);
    let (term, last) = (&v["terminal"], &v["last_transaction"]);
    TransactionPayload {
        id: text(&v["id"]),
        transaction: TransactionInfo {
            amount: number(&t["amount"]),
            installments: t["installments"].as_u64().unwrap() as u32,
            requested_at: text(&t["requested_at"]),
        },
        customer: CustomerInfo {
            avg_amount: number(&c["avg_amount"]),
            tx_count_24h: c["tx_count_24h"].as_u64().unwrap() as u32,
            known_merchants: c["known_merchants"].as_array().unwrap().iter().map(text).collect(),
        },
        merchant: MerchantInfo {
            id: text(&m["id"]),
            mcc: text(&m["mcc"]),
            avg_amount: number(&m["avg_amount"]),
        },
        terminal: TerminalInfo {
            is_online: term["is_online"].as_bool().unwrap(),
            card_present: term["card_present"].as_bool().unwrap(),
            km_from_home: number(&term["km_from_home"]),
        },
        last_transaction: if last.is_null() {
            None
        } else {
            Some(LastTransaction {
                timestamp: text(&last["timestamp"]),
                km_from_current: number(&last["km_from_current"]),
            })
        },
    }
}

const PAYLOAD_NO_LAST_TX: &str = r#"{
    "id": "tx-1329056812",
    "transaction": { "amount": 41.12, "installments": 2, "requested_at": "2026-03-11T18:45:53Z" },
    "customer": { "avg_amount": 82.24, "tx_count_24h": 3, "known_merchants": ["MERC-003", "MERC-016"] },
    "merchant": { "id": "MERC-016", "mcc": "5411", "avg_amount": 60.25 },
    "terminal": { "is_online": false, "card_present": true, "km_from_home": 29.2331036248 },
    "last_transaction": null
}"#;

const PAYLOAD_WITH_LAST_TX: &str = r#"{
    "id": "tx-3576980410",
    "transaction": { "amount": 384.88, "installments": 3, "requested_at": "2026-03-11T20:23:35Z" },
    "customer": { "avg_amount": 769.76, "tx_count_24h": 3, "known_merchants": ["MERC-009", "MERC-009", "MERC-001", "MERC-001"] },
    "merchant": { "id": "MERC-001", "mcc": "5912", "avg_amount": 298.95 },
    "terminal": { "is_online": false, "card_present": true, "km_from_home": 13.7090520965 },
    "last_transaction": { "timestamp": "2026-03-11T14:58:35Z", "km_from_current": 18.8626479774 }
}"#;

#[test]
fn deserialize_payload_without_last_transaction() {
    let payload = payload(PAYLOAD_NO_LAST_TX);

    assert!(payload.last_transaction.is_none());
    assert_eq!(payload.id, "tx-1329056812");
    assert!((float(payload.transaction.amount) - 41.12).abs() < 0.001);
    assert_eq!(payload.transaction.installments, 2);
    assert_eq!(payload.customer.known_merchants.len(), 2);
    assert_eq!(payload.merchant.mcc, "5411");
    assert!(!payload.terminal.is_online);
    assert!(payload.terminal.card_present);
}

#[test]
fn deserialize_payload_with_last_transaction() {
    let payload = payload(PAYLOAD_WITH_LAST_TX);

    let last_tx = payload.last_transaction.as_ref().unwrap();
    assert!((float(last_tx.km_from_current) - 18.862).abs() < 0.001);
    assert_eq!(last_tx.timestamp, "2026-03-11T14:58:35Z");
    // Vec preserves duplicates: "MERC-009" appears twice
    assert_eq!(payload.customer.known_merchants.len(), 4);
}

#[test]
fn fraud_decision_safe_default() {
    let d = FraudDecision::safe_default();
    assert!(d.approved);
    assert_eq!(float(d.fraud_score), 0.0);
}

#[test]
fn mcc_risk_known_and_unknown_codes() {
    let risk = MccRisk::load(vec![
        ("5411".to_string(), single(0.15)),
        ("7995".to_string(), single(0.85)),
    ]);

    assert!((float(risk.score("5411")) - 0.15).abs() < 0.0001);
    assert!((float(risk.score("7995")) - 0.85).abs() < 0.0001);
    // Unknown MCC → 0.5 default
    assert_eq!(float(risk.score("9999")), 0.5);
}

#[test]
fn a_code_that_comes_again_has_its_last_risk() {
    let risk = MccRisk::load(vec![
        ("5411".to_string(), single(0.15)),
        ("5411".to_string(), single(0.25)),
    ]);
    assert_eq!(float(risk.score("5411")), 0.25);
    assert_eq!(float(MccRisk::load(vec![]).score("5411")), 0.5);
}

#[test]
fn decisions_follow_the_score() {
    for (score, approved) in [(0.0f32, true), (0.4, true), (0.59999996, true), (0.6, false), (1.0, false)] {
        let d = FraudDecision::for_score(single(score));
        assert_eq!(d.approved, approved, "{score}");
        assert_eq!(d.approved, score < 0.6);
        assert_eq!(float(d.fraud_score), score);
    }
    for score in [f32::NAN, f32::INFINITY] {
        let d = FraudDecision::for_score(single(score));
        assert!(d.approved);
        assert_eq!(float(d.fraud_score), 0.0);
    }
}
