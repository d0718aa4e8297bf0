//! Queries that touch an index before it serves.

use vstd::prelude::*;

use crate::binary32::Binary32;
#[allow(unused_imports)]
use crate::binary32::{lemma_share_of_whole, ONE_BITS};
use crate::index::layout::N_DIMS;
use crate::vectorizer::SENTINEL_BITS;

verus! {

/// The state that the generator starts from.
pub const WARMUP_SEED: u32 = 0x1234_5678;

/// The state after `n` steps of a linear congruential generator.
pub open spec fn state_after(state: u32, n: nat) -> u32
    decreases n,
{
    if n == 0 {
        state
    } else {
        ((state_after(state, (n - 1) as nat) * 1_664_525 + 1_013_904_223) % 0x1_0000_0000) as u32
    }
}

/// A state as a number of the unit interval, its upper half mixed into the lower.
pub open spec fn noise(state: u32) -> Binary32 {
    Binary32::of_int((state ^ (state >> 16u32)) as int).div_spec(Binary32::of_int(u32::MAX as int))
}

/// Feature `i` of the query that starts at `state`.
pub open spec fn warmup_feature(state: u32, i: int) -> Binary32 {
    if i == 5 || i == 6 {
        Binary32 { bits: SENTINEL_BITS }
    } else {
        noise(state_after(state, (i + 1) as nat))
    }
}

/// A generator of warm-up queries.
pub struct Warmup {
    pub state: u32,
}

impl Warmup {
    pub fn new() -> (r: Self)
        ensures
            r.state == WARMUP_SEED,
    {
        Warmup { state: WARMUP_SEED }
    }

    /// The next query.
    pub fn next_query(&mut self) -> (r: [Binary32; N_DIMS])
        ensures
            forall|i: int| 0 <= i < 14 ==> #[trigger] r@[i] == warmup_feature(old(self).state, i),
            final(self).state == state_after(old(self).state, 14),
    {
        let ghost start = self.state;
        let mut query: [Binary32; N_DIMS] = [Binary32 { bits: 0 };N_DIMS];
        let mut i: usize = 0;
        while i < N_DIMS
            invariant
                i <= 14,
                self.state == state_after(start, i as nat),
                forall|j: int| 0 <= j < i ==> #[trigger] query@[j] == warmup_feature(start, j),
            decreases 14 - i,
        {
            self.state = step(self.state);
            let mixed: u32 = self.state ^ (self.state >> 16u32);
            query[i] = if i == 5 || i == 6 {
                Binary32 { bits: SENTINEL_BITS }
            } else {
                Binary32::from_u32(mixed).div(Binary32::from_u32(u32::MAX))
            };
            i = i + 1;
        }
        query
    }
}

fn step(state: u32) -> (r: u32)
    ensures
        r == (state * 1_664_525 + 1_013_904_223) % 0x1_0000_0000,
{
    ((state as u64 * 1_664_525 + 1_013_904_223) % 0x1_0000_0000) as u32
}

/// The features of a warm-up query are numbers of the unit interval, or the sentinel of an
/// absent last transaction.
pub proof fn law_warmup_features_in_range(state: u32, i: int)
    requires
        0 <= i < 14,
    ensures
        warmup_feature(state, i).bits <= ONE_BITS || ((i == 5 || i == 6) && warmup_feature(
            state,
            i,
        ).bits == SENTINEL_BITS),
{
    if i != 5 && i != 6 {
        let s = state_after(state, (i + 1) as nat);
        lemma_share_of_whole((s ^ (s >> 16u32)) as nat, u32::MAX as nat);
    }
}

} // verus!
