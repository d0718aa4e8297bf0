//! The responses, and which one a request gets.

use vstd::prelude::*;
#[allow(unused_imports)]
use vstd::utf8::encode_utf8;

use crate::binary32::Binary32;
#[allow(unused_imports)]
use crate::binary32::{fifth_bits, lemma_fifth, lemma_five_fifths, lemma_round_of_int};
#[allow(unused_imports)]
use crate::index::nearest::law_fraud_score_is_a_fifth;
#[allow(unused_imports)]
use crate::index::quantize::quantized_vector;
#[allow(unused_imports)]
use crate::index::search::frauds;
use crate::index::IvfIndex;
use crate::models::{MccRisk, TransactionPayload};
#[allow(unused_imports)]
use crate::models::DENY_BITS;
#[allow(unused_imports)]
use crate::text::{decimal, digit};
use crate::vectorizer::vectorize;
#[allow(unused_imports)]
use crate::vectorizer::features;

verus! {

// ── Pre-rendered responses ───────────────────────────────────────────────────

/// The responses of the service. A fraud score is a number of fifths: up to two are approved.
#[derive(Clone, Copy, Debug, PartialEq, Eq, Structural)]
pub enum Response {
    Fraud0,
    Fraud1,
    Fraud2,
    Fraud3,
    Fraud4,
    Fraud5,
    ReadyOk,
    NotReady,
    NotFound,
}

impl Response {
    /// The lines of the head before the length of the body.
    pub open spec fn head(self) -> Seq<char> {
        match self {
            Response::NotReady => "HTTP/1.1 503 Service Unavailable\r\n"@,
            Response::NotFound => "HTTP/1.1 404 Not Found\r\n"@,
            _ => "HTTP/1.1 200 OK\r\nContent-Type: application/json\r\n"@,
        }
    }

    pub open spec fn body(self) -> Seq<char> {
        match self {
            Response::Fraud0 => "{\"approved\":true,\"fraud_score\":0.0}"@,
            Response::Fraud1 => "{\"approved\":true,\"fraud_score\":0.2}"@,
            Response::Fraud2 => "{\"approved\":true,\"fraud_score\":0.4}"@,
            Response::Fraud3 => "{\"approved\":false,\"fraud_score\":0.6}"@,
            Response::Fraud4 => "{\"approved\":false,\"fraud_score\":0.8}"@,
            Response::Fraud5 => "{\"approved\":false,\"fraud_score\":1.0}"@,
            Response::ReadyOk => "{\"status\":\"ok\"}"@,
            _ => ""@,
        }
    }

    /// The text of the response: its `Content-Length` is the length of its body.
    pub open spec fn text(self) -> Seq<char> {
        self.head() + "Content-Length: "@ + decimal(self.body().len()) + "\r\n\r\n"@ + self.body()
    }
}

/// The characters from `from` to before `to` are the same.
spec fn same_range(a: Seq<char>, b: Seq<char>, from: int, to: int) -> bool
    decreases to - from,
{
    to <= from || (same_range(a, b, from, to - 1) && a[to - 1] == b[to - 1])
}

proof fn lemma_same_range(a: Seq<char>, b: Seq<char>, from: int, to: int)
    requires
        same_range(a, b, from, to),
    ensures
        forall|i: int| from <= i < to ==> a[i] == b[i],
    decreases to - from,
{
    if from < to {
        lemma_same_range(a, b, from, to - 1);
    }
}

/// The digits of the lengths.
proof fn lemma_lengths()
    ensures
        decimal(0) == seq!['0'],
        decimal(15) == seq!['1', '5'],
        decimal(35) == seq!['3', '5'],
        decimal(36) == seq!['3', '6'],
{
    assert(decimal(1) == seq![digit(1)]);
    assert(decimal(3) == seq![digit(3)]);
    assert(decimal(15) == decimal(1).push(digit(5)));
    assert(decimal(35) == decimal(3).push(digit(5)));
    assert(decimal(36) == decimal(3).push(digit(6)));
}

impl Response {
    /// The text of the response, spelled out.
    spec fn literal(self) -> &'static str {
        match self {
            Response::Fraud0 =>
                "HTTP/1.1 200 OK\r\nContent-Type: application/json\r\nContent-Length: 35\r\n\r\n{\"approved\":true,\"fraud_score\":0.0}",
            Response::Fraud1 =>
                "HTTP/1.1 200 OK\r\nContent-Type: application/json\r\nContent-Length: 35\r\n\r\n{\"approved\":true,\"fraud_score\":0.2}",
            Response::Fraud2 =>
                "HTTP/1.1 200 OK\r\nContent-Type: application/json\r\nContent-Length: 35\r\n\r\n{\"approved\":true,\"fraud_score\":0.4}",
            Response::Fraud3 =>
                "HTTP/1.1 200 OK\r\nContent-Type: application/json\r\nContent-Length: 36\r\n\r\n{\"approved\":false,\"fraud_score\":0.6}",
            Response::Fraud4 =>
                "HTTP/1.1 200 OK\r\nContent-Type: application/json\r\nContent-Length: 36\r\n\r\n{\"approved\":false,\"fraud_score\":0.8}",
            Response::Fraud5 =>
                "HTTP/1.1 200 OK\r\nContent-Type: application/json\r\nContent-Length: 36\r\n\r\n{\"approved\":false,\"fraud_score\":1.0}",
            Response::ReadyOk =>
                "HTTP/1.1 200 OK\r\nContent-Type: application/json\r\nContent-Length: 15\r\n\r\n{\"status\":\"ok\"}",
            Response::NotReady =>
                "HTTP/1.1 503 Service Unavailable\r\nContent-Length: 0\r\n\r\n",
            Response::NotFound =>
                "HTTP/1.1 404 Not Found\r\nContent-Length: 0\r\n\r\n",
        }
    }

    /// What is spelled out agrees with the text character by character.
    #[verifier::spinoff_prover]
    proof fn lemma_literal(self)
        ensures
            self.literal()@ == self.text(),
    {
        let (s, t) = (self.literal()@, self.text());
        reveal_strlit("HTTP/1.1 200 OK\r\nContent-Type: application/json\r\n");
        reveal_strlit("HTTP/1.1 503 Service Unavailable\r\n");
        reveal_strlit("HTTP/1.1 404 Not Found\r\n");
        reveal_strlit("Content-Length: ");
        reveal_strlit("\r\n\r\n");
        match self {
            Response::Fraud0 => {
                reveal_strlit(
                    "HTTP/1.1 200 OK\r\nContent-Type: application/json\r\nContent-Length: 35\r\n\r\n{\"approved\":true,\"fraud_score\":0.0}",
                );
                reveal_strlit("{\"approved\":true,\"fraud_score\":0.0}");
            },
            Response::Fraud1 => {
                reveal_strlit(
                    "HTTP/1.1 200 OK\r\nContent-Type: application/json\r\nContent-Length: 35\r\n\r\n{\"approved\":true,\"fraud_score\":0.2}",
                );
                reveal_strlit("{\"approved\":true,\"fraud_score\":0.2}");
            },
            Response::Fraud2 => {
                reveal_strlit(
                    "HTTP/1.1 200 OK\r\nContent-Type: application/json\r\nContent-Length: 35\r\n\r\n{\"approved\":true,\"fraud_score\":0.4}",
                );
                reveal_strlit("{\"approved\":true,\"fraud_score\":0.4}");
            },
            Response::Fraud3 => {
                reveal_strlit(
                    "HTTP/1.1 200 OK\r\nContent-Type: application/json\r\nContent-Length: 36\r\n\r\n{\"approved\":false,\"fraud_score\":0.6}",
                );
                reveal_strlit("{\"approved\":false,\"fraud_score\":0.6}");
            },
            Response::Fraud4 => {
                reveal_strlit(
                    "HTTP/1.1 200 OK\r\nContent-Type: application/json\r\nContent-Length: 36\r\n\r\n{\"approved\":false,\"fraud_score\":0.8}",
                );
                reveal_strlit("{\"approved\":false,\"fraud_score\":0.8}");
            },
            Response::Fraud5 => {
                reveal_strlit(
                    "HTTP/1.1 200 OK\r\nContent-Type: application/json\r\nContent-Length: 36\r\n\r\n{\"approved\":false,\"fraud_score\":1.0}",
                );
                reveal_strlit("{\"approved\":false,\"fraud_score\":1.0}");
            },
            Response::ReadyOk => {
                reveal_strlit(
                    "HTTP/1.1 200 OK\r\nContent-Type: application/json\r\nContent-Length: 15\r\n\r\n{\"status\":\"ok\"}",
                );
                reveal_strlit("{\"status\":\"ok\"}");
            },
            Response::NotReady => {
                reveal_strlit(
                    "HTTP/1.1 503 Service Unavailable\r\nContent-Length: 0\r\n\r\n",
                );
                reveal_strlit("");
            },
            Response::NotFound => {
                reveal_strlit(
                    "HTTP/1.1 404 Not Found\r\nContent-Length: 0\r\n\r\n",
                );
                reveal_strlit("");
            },
        }
        lemma_lengths();
        reveal_with_fuel(same_range, 60);
        let mid = t.len() / 2;
        assert(same_range(s, t, 0, mid as int));
        assert(same_range(s, t, mid as int, t.len() as int));
        lemma_same_range(s, t, 0, mid as int);
        lemma_same_range(s, t, mid as int, t.len() as int);
        assert(s =~= t);
    }

    /// The text of the response.
    pub fn as_str(self) -> (r: &'static str)
        ensures
            r@ == self.text(),
    {
        proof {
            self.lemma_literal();
        }
        match self {
            Response::Fraud0 =>
                "HTTP/1.1 200 OK\r\nContent-Type: application/json\r\nContent-Length: 35\r\n\r\n{\"approved\":true,\"fraud_score\":0.0}",
            Response::Fraud1 =>
                "HTTP/1.1 200 OK\r\nContent-Type: application/json\r\nContent-Length: 35\r\n\r\n{\"approved\":true,\"fraud_score\":0.2}",
            Response::Fraud2 =>
                "HTTP/1.1 200 OK\r\nContent-Type: application/json\r\nContent-Length: 35\r\n\r\n{\"approved\":true,\"fraud_score\":0.4}",
            Response::Fraud3 =>
                "HTTP/1.1 200 OK\r\nContent-Type: application/json\r\nContent-Length: 36\r\n\r\n{\"approved\":false,\"fraud_score\":0.6}",
            Response::Fraud4 =>
                "HTTP/1.1 200 OK\r\nContent-Type: application/json\r\nContent-Length: 36\r\n\r\n{\"approved\":false,\"fraud_score\":0.8}",
            Response::Fraud5 =>
                "HTTP/1.1 200 OK\r\nContent-Type: application/json\r\nContent-Length: 36\r\n\r\n{\"approved\":false,\"fraud_score\":1.0}",
            Response::ReadyOk =>
                "HTTP/1.1 200 OK\r\nContent-Type: application/json\r\nContent-Length: 15\r\n\r\n{\"status\":\"ok\"}",
            Response::NotReady =>
                "HTTP/1.1 503 Service Unavailable\r\nContent-Length: 0\r\n\r\n",
            Response::NotFound =>
                "HTTP/1.1 404 Not Found\r\nContent-Length: 0\r\n\r\n",
        }
    }

    /// The bytes of the response.
    pub fn as_bytes(self) -> (r: &'static [u8])
        ensures
            r@ == encode_utf8(self.text()),
    {
        self.as_str().as_bytes()
    }
}

proof fn lemma_body_is_ascii(r: Response)
    ensures
        vstd::utf8::is_ascii_chars(r.body()),
{
    reveal_strlit("{\"approved\":true,\"fraud_score\":0.0}");
    reveal_strlit("{\"approved\":true,\"fraud_score\":0.2}");
    reveal_strlit("{\"approved\":true,\"fraud_score\":0.4}");
    reveal_strlit("{\"approved\":false,\"fraud_score\":0.6}");
    reveal_strlit("{\"approved\":false,\"fraud_score\":0.8}");
    reveal_strlit("{\"approved\":false,\"fraud_score\":1.0}");
    reveal_strlit("{\"status\":\"ok\"}");
    reveal_strlit("");
}

/// The `Content-Length` of every response is the number of bytes of its body.
pub proof fn law_content_length_is_exact(r: Response)
    ensures
        r.text() == r.head() + "Content-Length: "@ + decimal(encode_utf8(r.body()).len())
            + "\r\n\r\n"@ + r.body(),
{
    lemma_body_is_ascii(r);
    vstd::utf8::is_ascii_chars_encode_utf8(r.body());
}

// ── Scores ───────────────────────────────────────────────────────────────────

/// The response for a number of frauds among the five nearest.
pub open spec fn fraud_response(n: int) -> Response {
    if n <= 0 {
        Response::Fraud0
    } else if n == 1 {
        Response::Fraud1
    } else if n == 2 {
        Response::Fraud2
    } else if n == 3 {
        Response::Fraud3
    } else if n == 4 {
        Response::Fraud4
    } else {
        Response::Fraud5
    }
}

/// The response for a score: that of five times the score, rounded; that of score zero where it
/// is not a finite number.
pub open spec fn response_for(score: Binary32) -> Response {
    if score.is_finite_spec() {
        fraud_response(score.mul_spec(Binary32::of_int(5)).round_within(0, 5))
    } else {
        Response::Fraud0
    }
}

/// Chooses the response for a score.
pub fn score_response(score: Binary32) -> (r: Response)
    ensures
        r == response_for(score),
{
    let idx: i32 = if score.is_finite() {
        score.mul(Binary32::from_u32(5)).round_clamped(0, 5)
    } else {
        0
    };
    match idx {
        0 => Response::Fraud0,
        1 => Response::Fraud1,
        2 => Response::Fraud2,
        3 => Response::Fraud3,
        4 => Response::Fraud4,
        _ => Response::Fraud5,
    }
}

/// The response tells the number of frauds: `n` fifths get the response of `n`, and it approves
/// exactly where the score is below the limit, that is for fewer than three frauds.
pub proof fn law_response_tells_frauds(n: nat)
    requires
        n <= 5,
    ensures
        ({
            let score = Binary32::of_int(n as int).div_spec(Binary32::of_int(5));
            &&& score.bits == fifth_bits(n)
            &&& response_for(score) == fraud_response(n as int)
            &&& score.lt_spec(Binary32 { bits: DENY_BITS }) <==> n < 3
        }),
{
    lemma_fifth(n);
    lemma_five_fifths(n);
    lemma_round_of_int(n as int);
    crate::binary32::lemma_of_int_exact(n as int);
}

/// Whatever the score is, the response is a success with a JSON body.
pub proof fn law_scoring_succeeds(score: Binary32)
    ensures
        response_for(score).head()
            == "HTTP/1.1 200 OK\r\nContent-Type: application/json\r\n"@,
{
}

/// The body of a response approves exactly for fewer than three frauds.
pub proof fn law_body_approves(n: int)
    requires
        0 <= n <= 5,
    ensures
        n < 3 ==> fraud_response(n).body().take(16) == "{\"approved\":true"@,
        n >= 3 ==> fraud_response(n).body().take(17) == "{\"approved\":false"@,
{
    reveal_strlit("{\"approved\":true,\"fraud_score\":0.0}");
    reveal_strlit("{\"approved\":true,\"fraud_score\":0.2}");
    reveal_strlit("{\"approved\":true,\"fraud_score\":0.4}");
    reveal_strlit("{\"approved\":false,\"fraud_score\":0.6}");
    reveal_strlit("{\"approved\":false,\"fraud_score\":0.8}");
    reveal_strlit("{\"approved\":false,\"fraud_score\":1.0}");
    reveal_strlit("{\"approved\":true");
    reveal_strlit("{\"approved\":false");
    let b = fraud_response(n).body();
    if n < 3 {
        assert(b.take(16) =~= "{\"approved\":true"@);
    } else {
        assert(b.take(17) =~= "{\"approved\":false"@);
    }
}

/// The response for `n` frauds among five says on the wire that it is a success, how long its
/// JSON body is, whether the transaction is approved and what the score is.
pub proof fn law_fraud_responses_read(n: int)
    ensures
        n <= 0 ==> fraud_response(n).text()
            == "HTTP/1.1 200 OK\r\nContent-Type: application/json\r\nContent-Length: 35\r\n\r\n{\"approved\":true,\"fraud_score\":0.0}"@,
        n == 1 ==> fraud_response(n).text()
            == "HTTP/1.1 200 OK\r\nContent-Type: application/json\r\nContent-Length: 35\r\n\r\n{\"approved\":true,\"fraud_score\":0.2}"@,
        n == 2 ==> fraud_response(n).text()
            == "HTTP/1.1 200 OK\r\nContent-Type: application/json\r\nContent-Length: 35\r\n\r\n{\"approved\":true,\"fraud_score\":0.4}"@,
        n == 3 ==> fraud_response(n).text()
            == "HTTP/1.1 200 OK\r\nContent-Type: application/json\r\nContent-Length: 36\r\n\r\n{\"approved\":false,\"fraud_score\":0.6}"@,
        n == 4 ==> fraud_response(n).text()
            == "HTTP/1.1 200 OK\r\nContent-Type: application/json\r\nContent-Length: 36\r\n\r\n{\"approved\":false,\"fraud_score\":0.8}"@,
        n >= 5 ==> fraud_response(n).text()
            == "HTTP/1.1 200 OK\r\nContent-Type: application/json\r\nContent-Length: 36\r\n\r\n{\"approved\":false,\"fraud_score\":1.0}"@,
{
    fraud_response(n).lemma_literal();
}

/// The responses that do not depend on a transaction, as they go out on the wire.
pub proof fn law_fixed_responses_read()
    ensures
        Response::ReadyOk.text()
            == "HTTP/1.1 200 OK\r\nContent-Type: application/json\r\nContent-Length: 15\r\n\r\n{\"status\":\"ok\"}"@,
        Response::NotReady.text()
            == "HTTP/1.1 503 Service Unavailable\r\nContent-Length: 0\r\n\r\n"@,
        Response::NotFound.text() == "HTTP/1.1 404 Not Found\r\nContent-Length: 0\r\n\r\n"@,
{
    Response::ReadyOk.lemma_literal();
    Response::NotReady.lemma_literal();
    Response::NotFound.lemma_literal();
}

/// Scores a transaction: a body that is no transaction counts as one without frauds near it.
pub fn score_body(payload: &Option<TransactionPayload>, index: &IvfIndex, mcc_risk: &MccRisk) -> (r:
    Response)
    requires
        index.searchable(),
    ensures
        r == match *payload {
            Some(p) => fraud_response(
                frauds(
                    index.layout.nearest_five(index.fma, quantized_vector(features(p, *mcc_risk))),
                ) as int,
            ),
            None => Response::Fraud0,
        },
{
    match payload {
        Some(p) => {
            let query = vectorize(p, mcc_risk);
            let score = index.fraud_score(&query);
            proof {
                let q = quantized_vector(features(*p, *mcc_risk));
                law_fraud_score_is_a_fifth(index.fma, index.layout, q);
                law_response_tells_frauds(frauds(index.layout.nearest_five(index.fma, q)));
            }
            score_response(score)
        },
        None => Response::Fraud0,
    }
}

// ── Dispatch ─────────────────────────────────────────────────────────────────

/// What a request gets.
#[derive(Clone, Copy, Debug, PartialEq, Eq, Structural)]
pub enum Route {
    /// A response that does not depend on the body.
    Fixed(Response),
    /// The response for the transaction in the body.
    Score,
}

pub open spec fn has_prefix(buf: Seq<u8>, prefix: Seq<u8>) -> bool {
    prefix.len() <= buf.len() && buf.take(prefix.len() as int) == prefix
}

/// Readiness tells whether the service is ready; a transaction with a body is scored; everything
/// else is not found.
pub open spec fn routed(buf: Seq<u8>, body_start: int, body_end: int, ready: bool) -> Route {
    if has_prefix(buf, encode_utf8("GET /ready"@)) {
        Route::Fixed(
            if ready {
                Response::ReadyOk
            } else {
                Response::NotReady
            },
        )
    } else if has_prefix(buf, encode_utf8("POST /fraud-score"@)) && body_end > body_start {
        Route::Score
    } else {
        Route::Fixed(Response::NotFound)
    }
}

fn starts_with(buf: &[u8], prefix: &[u8]) -> (r: bool)
    ensures
        r == has_prefix(buf@, prefix@),
{
    if prefix.len() > buf.len() {
        return false;
    }
    let mut i: usize = 0;
    while i < prefix.len()
        invariant
            i <= prefix.len() <= buf.len(),
            forall|j: int| 0 <= j < i ==> buf@[j] == #[trigger] prefix@[j],
        decreases prefix.len() - i,
    {
        if buf[i] != prefix[i] {
            assert(buf@.take(prefix@.len() as int)[i as int] != prefix@[i as int]);
            return false;
        }
        i = i + 1;
    }
    assert(buf@.take(prefix@.len() as int) =~= prefix@);
    true
}

/// Chooses what a request gets. `buf` holds the request, with the body at
/// `body_start..body_end`.
pub fn dispatch(buf: &[u8], body_start: usize, body_end: usize, ready: bool) -> (r: Route)
    ensures
        r == routed(buf@, body_start as int, body_end as int, ready),
{
    if starts_with(buf, "GET /ready".as_bytes()) {
        return Route::Fixed(
            if ready {
                Response::ReadyOk
            } else {
                Response::NotReady
            },
        );
    }
    if starts_with(buf, "POST /fraud-score".as_bytes()) && body_end > body_start {
        return Route::Score;
    }
    Route::Fixed(Response::NotFound)
}

} // verus!
