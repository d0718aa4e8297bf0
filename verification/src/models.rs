//! Requests, decisions and the table of merchant risks.

use vstd::prelude::*;
use vstd::string::StringExecFns;

use crate::binary32::Binary32;

verus! {

// ── Request types ────────────────────────────────────────────────────────────

#[derive(Debug)]
pub struct TransactionPayload {
    pub id: String,
    pub transaction: TransactionInfo,
    pub customer: CustomerInfo,
    pub merchant: MerchantInfo,
    pub terminal: TerminalInfo,
    pub last_transaction: Option<LastTransaction>,
}

#[derive(Debug)]
pub struct TransactionInfo {
    pub amount: Binary32,
    pub installments: u32,
    /// ISO 8601 in UTC, such as "2026-03-11T18:45:53Z".
    pub requested_at: String,
}

#[derive(Debug)]
pub struct CustomerInfo {
    pub avg_amount: Binary32,
    pub tx_count_24h: u32,
    /// May hold a merchant more than once.
    pub known_merchants: Vec<String>,
}

#[derive(Debug)]
pub struct MerchantInfo {
    pub id: String,
    pub mcc: String,
    pub avg_amount: Binary32,
}

#[derive(Debug)]
pub struct TerminalInfo {
    pub is_online: bool,
    pub card_present: bool,
    pub km_from_home: Binary32,
}

#[derive(Debug)]
pub struct LastTransaction {
    pub timestamp: String,
    pub km_from_current: Binary32,
}

// ── Response types ───────────────────────────────────────────────────────────

/// 0.6 in single precision: the score from which a transaction is denied.
pub const DENY_BITS: u32 = 0x3F19_999A;

#[derive(Clone, Copy, Debug, PartialEq, Eq, Structural)]
pub struct FraudDecision {
    pub approved: bool,
    pub fraud_score: Binary32,
}

impl FraudDecision {
    /// An approved decision with zero score, for internal errors: a wrong approval costs less
    /// than no answer.
    pub fn safe_default() -> (r: Self)
        ensures
            r.approved,
            r.fraud_score.bits == 0,
    {
        Self { approved: true, fraud_score: Binary32 { bits: 0 } }
    }

    /// The decision for a score: approved below 0.6, and the safe default where the score is not
    /// a finite number.
    pub fn for_score(score: Binary32) -> (r: Self)
        ensures
            score.is_finite_spec() ==> r.fraud_score == score && r.approved == score.lt_spec(
                Binary32 { bits: DENY_BITS },
            ),
            !score.is_finite_spec() ==> r.approved && r.fraud_score.bits == 0,
    {
        if score.is_finite() {
            Self { approved: score.lt(Binary32 { bits: DENY_BITS }), fraud_score: score }
        } else {
            Self::safe_default()
        }
    }
}

// ── MCC risk table ───────────────────────────────────────────────────────────

/// 0.5 in single precision: the risk of an unknown merchant category.
pub const DEFAULT_RISK_BITS: u32 = 0x3F00_0000;

/// The table of a list of entries, of which a later one replaces an earlier one of the same code.
pub open spec fn risk_table(entries: Seq<(String, Binary32)>) -> Map<Seq<char>, Binary32>
    decreases entries.len(),
{
    if entries.len() == 0 {
        Map::empty()
    } else {
        risk_table(entries.drop_last()).insert(entries.last().0@, entries.last().1)
    }
}

/// Risk scores by merchant category code.
pub struct MccRisk {
    entries: Vec<(String, Binary32)>,
}

impl View for MccRisk {
    type V = Map<Seq<char>, Binary32>;

    closed spec fn view(&self) -> Map<Seq<char>, Binary32> {
        risk_table(self.entries@)
    }
}

impl MccRisk {
    /// Makes the table of a list of entries.
    pub fn load(entries: Vec<(String, Binary32)>) -> (r: Self)
        ensures
            r@ == risk_table(entries@),
    {
        Self { entries }
    }

    /// The risk of a code: 0.5 if it is unknown.
    pub open spec fn score_spec(&self, mcc: Seq<char>) -> Binary32 {
        if self@.contains_key(mcc) {
            self@[mcc]
        } else {
            Binary32 { bits: DEFAULT_RISK_BITS }
        }
    }

    /// The risk score of a merchant category code; unknown codes have 0.5.
    pub fn score(&self, mcc: &str) -> (r: Binary32)
        ensures
            r == self.score_spec(mcc@),
    {
        let key = String::from_str(mcc);
        let mut i: usize = self.entries.len();
        assert(self.entries@.take(i as int) =~= self.entries@);
        while i > 0
            invariant
                i <= self.entries@.len(),
                key@ == mcc@,
                self@.contains_key(mcc@) == risk_table(self.entries@.take(i as int)).contains_key(
                    mcc@,
                ),
                self@.contains_key(mcc@) ==> self@[mcc@] == risk_table(
                    self.entries@.take(i as int),
                )[mcc@],
            decreases i,
        {
            proof {
                assert(self.entries@.take(i as int).drop_last() =~= self.entries@.take(i - 1));
                assert(self.entries@.take(i as int).last() == self.entries@[i - 1]);
            }
            if self.entries[i - 1].0 == key {
                return self.entries[i - 1].1;
            }
            i = i - 1;
        }
        Binary32 { bits: DEFAULT_RISK_BITS }
    }
}

} // verus!
