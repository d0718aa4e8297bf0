//! Decisions of the load balancer: which service gets the next client, and how long a service is
//! waited for.

use vstd::prelude::*;

verus! {

/// How often a control socket is tried before the balancer gives up.
pub const CONNECT_ATTEMPTS: u32 = 120;

/// The pause between two attempts, in milliseconds.
pub const RETRY_MILLIS: u64 = 250;

/// The target of client `n` among `targets`.
pub open spec fn target_of(n: int, targets: int) -> int {
    n % targets
}

/// Hands out targets in turn.
pub struct RoundRobin {
    pub next: usize,
}

impl RoundRobin {
    pub fn new() -> (r: Self)
        ensures
            r.next == 0,
    {
        RoundRobin { next: 0 }
    }

    /// The target of the next client. The count of clients starts again after the largest.
    pub fn pick(&mut self, targets: usize) -> (r: usize)
        requires
            targets > 0,
        ensures
            r == target_of(old(self).next as int, targets as int),
            r < targets,
            final(self).next == if old(self).next == usize::MAX {
                0
            } else {
                old(self).next + 1
            },
    {
        let r = self.next % targets;
        self.next = self.next.wrapping_add(1);
        r
    }
}

/// As many clients in a row as there are targets get one target each.
pub proof fn law_each_target_gets_one(start: int, targets: int, target: int) -> (k: int)
    requires
        start >= 0,
        0 <= target < targets,
    ensures
        0 <= k < targets,
        target_of(start + k, targets) == target,
        forall|j: int|
            0 <= j < targets && #[trigger] target_of(start + j, targets) == target ==> j == k,
{
    let s = start % targets;
    let q = start / targets;
    vstd::arithmetic::div_mod::lemma_fundamental_div_mod(start, targets);
    vstd::arithmetic::div_mod::lemma_mod_pos_bound(start, targets);
    let k = if target >= s {
        target - s
    } else {
        target - s + targets
    };
    assert forall|j: int| 0 <= j < targets implies #[trigger] target_of(start + j, targets) == if s
        + j < targets {
        s + j
    } else {
        s + j - targets
    } by {
        if s + j < targets {
            assert(start + j == q * targets + (s + j)) by (nonlinear_arith)
                requires
                    start == targets * q + s,
            ;
            vstd::arithmetic::div_mod::lemma_fundamental_div_mod_converse(
                start + j,
                targets,
                q,
                s + j,
            );
        } else {
            assert(start + j == (q + 1) * targets + (s + j - targets)) by (nonlinear_arith)
                requires
                    start == targets * q + s,
            ;
            vstd::arithmetic::div_mod::lemma_fundamental_div_mod_converse(
                start + j,
                targets,
                q + 1,
                s + j - targets,
            );
        }
    }
    assert(target_of(start + k, targets) == target);
    k
}

/// What follows a failed attempt to connect.
#[derive(Clone, Copy, Debug, PartialEq, Eq, Structural)]
pub enum AfterFailure {
    /// Try again after a pause of so many milliseconds.
    Retry { millis: u64 },
    GiveUp,
}

/// Decides what follows the failure of an attempt; the first attempt has the number zero.
pub fn after_failure(attempt: u32) -> (r: AfterFailure)
    ensures
        r == if attempt + 1 < CONNECT_ATTEMPTS {
            AfterFailure::Retry { millis: RETRY_MILLIS }
        } else {
            AfterFailure::GiveUp
        },
{
    if attempt < CONNECT_ATTEMPTS - 1 {
        AfterFailure::Retry { millis: RETRY_MILLIS }
    } else {
        AfterFailure::GiveUp
    }
}

} // verus!
