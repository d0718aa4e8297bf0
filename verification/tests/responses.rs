//! Responses, their choice and the scoring of a transaction.

use fraud_api::binary32::Binary32;
use fraud_api::index::layout::{Bbox, VectorBlock, BLOCK_SIZE, N_DIMS};
use fraud_api::index::writer::serialize_index;
use fraud_api::index::IvfIndex;
use fraud_api::models::{
    CustomerInfo, FraudDecision, MccRisk, MerchantInfo, TerminalInfo, TransactionInfo,
    TransactionPayload,
};
use fraud_api::responses::{dispatch, score_body, score_response, Response, Route};

fn single(x: f32) -> Binary32 {
    Binary32 { bits: x.to_bits() }
}

const ALL: [Response; 9] = [
    Response::Fraud0,
    Response::Fraud1,
    Response::Fraud2,
    Response::Fraud3,
    Response::Fraud4,
    Response::Fraud5,
    Response::ReadyOk,
    Response::NotReady,
    Response::NotFound,
];

#[test]
fn responses_are_exact() {
    let ok = "HTTP/1.1 200 OK\r\nContent-Type: application/json\r\nContent-Length: ";
    for (r, score, approved) in [
        (Response::Fraud0, "0.0", true),
        (Response::Fraud1, "0.2", true),
        (Response::Fraud2, "0.4", true),
        (Response::Fraud3, "0.6", false),
        (Response::Fraud4, "0.8", false),
        (Response::Fraud5, "1.0", false),
    ] {
        let len = if approved { 35 } else { 36 };
        let want =
            format!("{ok}{len}\r\n\r\n{{\"approved\":{approved},\"fraud_score\":{score}}}");
        assert_eq!(r.as_str(), want);
        assert_eq!(r.as_bytes(), want.as_bytes());
    }
    assert_eq!(Response::ReadyOk.as_str(), format!("{ok}15\r\n\r\n{{\"status\":\"ok\"}}"));
    assert_eq!(
        Response::NotReady.as_str(),
        "HTTP/1.1 503 Service Unavailable\r\nContent-Length: 0\r\n\r\n"
    );
    assert_eq!(
        Response::NotFound.as_str(),
        "HTTP/1.1 404 Not Found\r\nContent-Length: 0\r\n\r\n"
    );
}

#[test]
fn content_length_is_that_of_the_body() {
    for r in ALL {
        let (head, body) = r.as_str().split_once("\r\n\r\n").unwrap();
        let stated = head.rsplit_once("Content-Length: ").unwrap().1;
        assert_eq!(stated.parse::<usize>().unwrap(), body.len());
        if !body.is_empty() {
            let _: serde_json::Value = serde_json::from_str(body).unwrap();
        }
    }
}

#[test]
fn responses_tell_the_frauds() {
    for (n, r) in ALL[..6].iter().enumerate() {
        let score = n as f32 / 5.0;
        assert_eq!(score_response(single(score)), *r);
        let body = r.as_str().split_once("\r\n\r\n").unwrap().1;
        let value: serde_json::Value = serde_json::from_str(body).unwrap();
        assert_eq!(value["fraud_score"].as_f64().unwrap() as f32, score);
        assert_eq!(value["approved"].as_bool().unwrap(), n < 3);
        assert_eq!(FraudDecision::for_score(single(score)).approved, n < 3);
    }
    assert_eq!(score_response(single(f32::NAN)), Response::Fraud0);
    assert_eq!(score_response(single(f32::INFINITY)), Response::Fraud0);
    assert_eq!(score_response(single(7.5)), Response::Fraud5);
    assert_eq!(score_response(single(-3.0)), Response::Fraud0);
}

#[test]
fn requests_are_dispatched() {
    let post = b"POST /fraud-score HTTP/1.1\r\n\r\n{}";
    assert_eq!(dispatch(post, 30, 32, true), Route::Score);
    assert_eq!(dispatch(post, 30, 32, false), Route::Score);
    assert_eq!(dispatch(post, 30, 30, true), Route::Fixed(Response::NotFound));
    let ready = b"GET /ready HTTP/1.1\r\n\r\n";
    assert_eq!(dispatch(ready, 23, 23, true), Route::Fixed(Response::ReadyOk));
    assert_eq!(dispatch(ready, 23, 23, false), Route::Fixed(Response::NotReady));
    assert_eq!(dispatch(b"GET /readyness", 14, 14, true), Route::Fixed(Response::ReadyOk));
    assert_eq!(dispatch(b"GET /read", 9, 9, true), Route::Fixed(Response::NotFound));
    assert_eq!(dispatch(b"get /ready", 10, 10, true), Route::Fixed(Response::NotFound));
    assert_eq!(dispatch(b"", 0, 0, true), Route::Fixed(Response::NotFound));
}

/// The same bytes at a multiple of 32 in memory.
fn aligned(bytes: &[u8]) -> &'static [u8] {
    let room: &'static mut [u8] = vec![0u8; bytes.len() + 32].leak();
    let at = (32 - room.as_ptr() as usize % 32) % 32;
    room[at..at + bytes.len()].copy_from_slice(bytes);
    &room[at..at + bytes.len()]
}

/// An index of one block whose vectors are all zero, the first `frauds` of them frauds.
fn index(frauds: usize) -> IvfIndex {
    let labels: Vec<u8> = (0..BLOCK_SIZE).map(|i| (i < frauds) as u8).collect();
    let bytes = serialize_index(
        &[[single(0.0); N_DIMS]],
        &[8],
        &[Bbox::default()],
        &[Bbox::default()],
        &[VectorBlock::default()],
        &labels,
        8,
    )
    .unwrap();
    match IvfIndex::load(aligned(&bytes), false) {
        Ok(index) => index,
        Err(e) => panic!("{}", e.message()),
    }
}

fn payload() -> TransactionPayload {
    TransactionPayload {
        id: "tx".to_string(),
        transaction: TransactionInfo {
            amount: single(10.0),
            installments: 1,
            requested_at: "2026-03-11T18:45:53Z".to_string(),
        },
        customer: CustomerInfo {
            avg_amount: single(20.0),
            tx_count_24h: 1,
            known_merchants: vec![],
        },
        merchant: MerchantInfo {
            id: "M".to_string(),
            mcc: "5411".to_string(),
            avg_amount: single(5.0),
        },
        terminal: TerminalInfo {
            is_online: true,
            card_present: false,
            km_from_home: single(3.0),
        },
        last_transaction: None,
    }
}

#[test]
fn transactions_are_scored() {
    let mcc = MccRisk::load(vec![]);
    for n in 0..6 {
        // All vectors are equally far, so the first five are the nearest.
        assert_eq!(score_body(&Some(payload()), &index(n), &mcc), ALL[n]);
    }
}

#[test]
fn a_body_that_is_no_transaction_is_approved() {
    let mcc = MccRisk::load(vec![]);
    assert_eq!(score_body(&None, &index(5), &mcc), Response::Fraud0);
}
