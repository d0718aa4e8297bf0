//! Distances from a query to the vectors of one block.

use vstd::prelude::*;

use crate::binary32::Binary32;
#[allow(unused_imports)]
use crate::binary32::{law_integer_difference, law_integer_square};
use crate::index::distance::{add_square, square_diff, MAX_BITS};
#[allow(unused_imports)]
use crate::index::distance::{
    fused_add, is_dist, lane_sum, lemma_exact_sum, lemma_lane_is_finite, lemma_lt_larger,
    lemma_order_of_nonneg, lemma_square_of_int, lemma_sum_is_dist, lemma_sum_prefix, max_dist,
    small_terms, square, sum_terms, total,
};
use crate::index::layout::{VectorBlock, BLOCK_SIZE, N_DIMS};

verus! {

/// The quantised value of the vector in `slot` at dimension `d`.
pub open spec fn block_value(block: VectorBlock, slot: int, d: int) -> i16 {
    block.data@[d * 8 + slot]
}

/// The vector in a slot of a block.
pub open spec fn block_vector(block: VectorBlock, slot: int) -> Seq<i16> {
    Seq::new(14, |d: int| block_value(block, slot, d))
}

/// The squared differences of two vectors, dimension by dimension.
pub open spec fn diff_terms(query: Seq<i16>, v: Seq<i16>) -> Seq<nat> {
    Seq::new(v.len(), |d: int| square(v[d] - query[d]))
}

/// The squared distance between two quantised vectors, added up in single precision: with fused
/// multiplication and addition in four lanes, else from the first dimension on.
pub open spec fn vector_dist(fma: bool, query: Seq<i16>, v: Seq<i16>) -> Binary32 {
    sum_terms(fma, diff_terms(query, v))
}

/// The squared distance from the query to the vector in a slot.
pub open spec fn slot_dist(fma: bool, query: Seq<i16>, block: VectorBlock, slot: int) -> Binary32 {
    vector_dist(fma, query, block_vector(block, slot))
}

/// The squared distance over the first `n` dimensions.
pub open spec fn partial_dist(
    fma: bool,
    query: Seq<i16>,
    block: VectorBlock,
    slot: int,
    n: int,
) -> Binary32 {
    sum_terms(fma, diff_terms(query, block_vector(block, slot)).take(n))
}

/// All slots are farther than `threshold` after 8 dimensions.
pub open spec fn all_far(
    fma: bool,
    query: Seq<i16>,
    block: VectorBlock,
    threshold: Binary32,
) -> bool {
    forall|slot: int|
        0 <= slot < 8 ==> threshold.lt_spec(#[trigger] partial_dist(fma, query, block, slot, 8))
}

/// The terms of a distance are what subtracting and multiplying in single precision gives.
pub proof fn law_terms_are_products(a: i16, b: i16)
    ensures
        ({
            let diff = Binary32::of_int(a as int).sub_spec(Binary32::of_int(b as int));
            diff.mul_spec(diff) == Binary32::of_int(square(a - b) as int)
        }),
{
    law_integer_difference(a as int, b as int);
    law_integer_square(a - b);
    assert((a - b) * (a - b) >= 0) by (nonlinear_arith);
}

/// Adding a term in a lane is what subtracting, squaring and adding in single precision with one
/// rounding for the last two gives.
pub proof fn law_lane_steps_are_fused(acc: Binary32, a: i16, b: i16)
    requires
        acc.bits < 0x7F80_0000,
    ensures
        ({
            let diff = Binary32::of_int(a as int).sub_spec(Binary32::of_int(b as int));
            diff.square_add_spec(acc) == fused_add(acc, square(a - b))
        }),
{
    law_integer_difference(a as int, b as int);
    lemma_square_of_int(a - b, acc);
}

pub proof fn lemma_diff_terms_small(query: Seq<i16>, v: Seq<i16>)
    requires
        v.len() <= 16,
    ensures
        small_terms(diff_terms(query, v)),
{
    let terms = diff_terms(query, v);
    assert forall|d: int| 0 <= d < terms.len() implies #[trigger] terms[d] <= 0x4_0000_0000 by {
        let n = v[d] - query[d];
        assert(0 <= n * n <= 65535 * 65535) by (nonlinear_arith)
            requires
                -65535 <= n <= 65535,
        ;
    }
}

/// Every distance in a block is finite, not negative, and below the number that marks a distance
/// that was not computed.
pub proof fn law_slot_dist_in_range(fma: bool, query: Seq<i16>, block: VectorBlock, slot: int)
    ensures
        is_dist(slot_dist(fma, query, block, slot)),
        slot_dist(fma, query, block, slot).lt_spec(max_dist()),
{
    let v = block_vector(block, slot);
    lemma_diff_terms_small(query, v);
    lemma_sum_is_dist(fma, diff_terms(query, v));
    lemma_order_of_nonneg(slot_dist(fma, query, block, slot), max_dist());
}

/// A squared distance below two to the power 24 is exact, whether or not the machine multiplies
/// and adds with one rounding.
pub proof fn law_small_distances_are_exact(fma: bool, query: Seq<i16>, v: Seq<i16>)
    requires
        total(diff_terms(query, v)) < 0x100_0000,
    ensures
        vector_dist(fma, query, v) == Binary32::of_int(total(diff_terms(query, v)) as int),
{
    lemma_exact_sum(fma, diff_terms(query, v));
}

/// A distance over fewer dimensions is no larger, so a block that is given up early holds no
/// vector within the threshold.
pub proof fn law_early_exit_is_safe(
    fma: bool,
    query: Seq<i16>,
    block: VectorBlock,
    threshold: Binary32,
    slot: int,
    n: int,
)
    requires
        0 <= n <= 14,
    ensures
        partial_dist(fma, query, block, slot, n).bits <= slot_dist(fma, query, block, slot).bits,
        threshold.lt_spec(partial_dist(fma, query, block, slot, n)) ==> threshold.lt_spec(
            slot_dist(fma, query, block, slot),
        ),
{
    lemma_partial_order(fma, query, block, slot, n, 14);
    let terms = diff_terms(query, block_vector(block, slot));
    assert(terms.take(14) =~= terms);
    lemma_lt_larger(
        threshold,
        partial_dist(fma, query, block, slot, n),
        slot_dist(fma, query, block, slot),
    );
}

proof fn lemma_partial_order(
    fma: bool,
    query: Seq<i16>,
    block: VectorBlock,
    slot: int,
    m: int,
    n: int,
)
    requires
        0 <= m <= n <= 14,
    ensures
        partial_dist(fma, query, block, slot, m).bits
            <= partial_dist(fma, query, block, slot, n).bits,
        is_dist(partial_dist(fma, query, block, slot, n)),
{
    let terms = diff_terms(query, block_vector(block, slot));
    lemma_diff_terms_small(query, block_vector(block, slot));
    let part = terms.take(n);
    assert(small_terms(part)) by {
        assert forall|d: int| 0 <= d < part.len() implies #[trigger] part[d] <= 0x4_0000_0000 by {
            assert(part[d] == terms[d]);
        }
    }
    lemma_sum_prefix(fma, part, m as nat);
    assert(part.take(m) =~= terms.take(m));
    lemma_sum_is_dist(fma, part);
}

/// Adds dimensions `from..to` to the running sums of all slots.
fn accumulate(
    query_i16: &[i16; N_DIMS],
    block: &VectorBlock,
    acc: &mut [Binary32; BLOCK_SIZE],
    from: usize,
    to: usize,
)
    requires
        from <= to <= 14,
        forall|slot: int|
            0 <= slot < 8 ==> #[trigger] old(acc)@[slot] == partial_dist(
                false,
                query_i16@,
                *block,
                slot,
                from as int,
            ),
    ensures
        forall|slot: int|
            0 <= slot < 8 ==> #[trigger] final(acc)@[slot] == partial_dist(
                false,
                query_i16@,
                *block,
                slot,
                to as int,
            ),
{
    let mut d: usize = from;
    while d < to
        invariant
            from <= d <= to <= 14,
            forall|slot: int|
                0 <= slot < 8 ==> #[trigger] acc@[slot] == partial_dist(
                    false,
                    query_i16@,
                    *block,
                    slot,
                    d as int,
                ),
        decreases to - d,
    {
        let mut slot: usize = 0;
        while slot < BLOCK_SIZE
            invariant
                d < 14,
                slot <= 8,
                forall|s: int|
                    0 <= s < slot ==> #[trigger] acc@[s] == partial_dist(
                        false,
                        query_i16@,
                        *block,
                        s,
                        d + 1,
                    ),
                forall|s: int|
                    slot <= s < 8 ==> #[trigger] acc@[s] == partial_dist(
                        false,
                        query_i16@,
                        *block,
                        s,
                        d as int,
                    ),
            decreases 8 - slot,
        {
            let term = square_diff(block.data[d * BLOCK_SIZE + slot], query_i16[d]);
            proof {
                let terms = diff_terms(query_i16@, block_vector(*block, slot as int));
                assert(terms.take(d + 1).drop_last() =~= terms.take(d as int));
                assert(terms.take(d + 1).last() == terms[d as int]);
            }
            let sum = acc[slot].add(term);
            acc[slot] = sum;
            slot = slot + 1;
        }
        d = d + 1;
    }
}

/// Adds dimension `d` to its lane of the running sums of all slots.
fn accumulate_lane(
    query_i16: &[i16; N_DIMS],
    block: &VectorBlock,
    acc: &mut [Binary32; BLOCK_SIZE],
    d: usize,
)
    requires
        d < 14,
        forall|slot: int|
            0 <= slot < 8 ==> #[trigger] old(acc)@[slot] == partial_lane(
                query_i16@,
                *block,
                slot,
                d as int,
                d as int % 4,
            ),
    ensures
        forall|slot: int|
            0 <= slot < 8 ==> #[trigger] final(acc)@[slot] == partial_lane(
                query_i16@,
                *block,
                slot,
                d + 1,
                d as int % 4,
            ),
{
    let mut slot: usize = 0;
    while slot < BLOCK_SIZE
        invariant
            d < 14,
            slot <= 8,
            forall|s: int|
                0 <= s < slot ==> #[trigger] acc@[s] == partial_lane(
                    query_i16@,
                    *block,
                    s,
                    d + 1,
                    d as int % 4,
                ),
            forall|s: int|
                slot <= s < 8 ==> #[trigger] acc@[s] == partial_lane(
                    query_i16@,
                    *block,
                    s,
                    d as int,
                    d as int % 4,
                ),
        decreases 8 - slot,
    {
        proof {
            let terms = diff_terms(query_i16@, block_vector(*block, slot as int));
            lemma_lane_step(query_i16@, *block, slot as int, d as int);
            lemma_lane_is_finite(terms.take(d as int), d as int % 4);
        }
        let diff: i64 = block.data[d * BLOCK_SIZE + slot] as i64 - query_i16[d] as i64;
        let sum = add_square(acc[slot], diff);
        acc[slot] = sum;
        slot = slot + 1;
    }
}

/// One lane of the sums over the first `n` dimensions.
pub open spec fn partial_lane(
    query: Seq<i16>,
    block: VectorBlock,
    slot: int,
    n: int,
    lane: int,
) -> Binary32 {
    lane_sum(diff_terms(query, block_vector(block, slot)).take(n), lane)
}

/// Dimension `d` goes to one lane, and the others stay.
proof fn lemma_lane_step(query: Seq<i16>, block: VectorBlock, slot: int, d: int)
    requires
        0 <= d < 14,
    ensures
        small_terms(diff_terms(query, block_vector(block, slot)).take(d)),
        partial_lane(query, block, slot, d + 1, d % 4) == fused_add(
            partial_lane(query, block, slot, d, d % 4),
            square(block_value(block, slot, d) - query[d]),
        ),
        forall|lane: int|
            lane != d % 4 ==> #[trigger] partial_lane(query, block, slot, d + 1, lane)
                == partial_lane(query, block, slot, d, lane),
{
    let terms = diff_terms(query, block_vector(block, slot));
    lemma_diff_terms_small(query, block_vector(block, slot));
    let part = terms.take(d);
    assert forall|i: int| 0 <= i < part.len() implies #[trigger] part[i] <= 0x4_0000_0000 by {
        assert(part[i] == terms[i]);
    }
    assert(terms.take(d + 1).drop_last() =~= part);
    assert(terms.take(d + 1).last() == terms[d]);
}

/// The running sums of all slots over the first dimensions, in four lanes.
struct Lanes {
    a0: [Binary32; BLOCK_SIZE],
    a1: [Binary32; BLOCK_SIZE],
    a2: [Binary32; BLOCK_SIZE],
    a3: [Binary32; BLOCK_SIZE],
}

impl Lanes {
    /// The lanes hold the sums over the first `n` dimensions.
    spec fn hold(&self, query: Seq<i16>, block: VectorBlock, n: int) -> bool {
        forall|slot: int|
            #![trigger self.a0@[slot]]
            #![trigger self.a1@[slot]]
            #![trigger self.a2@[slot]]
            #![trigger self.a3@[slot]]
            0 <= slot < 8 ==> self.a0@[slot] == partial_lane(query, block, slot, n, 0)
                && self.a1@[slot] == partial_lane(query, block, slot, n, 1) && self.a2@[slot]
                == partial_lane(query, block, slot, n, 2) && self.a3@[slot] == partial_lane(
                query,
                block,
                slot,
                n,
                3,
            )
    }

    /// Adds dimensions `from..to`.
    fn accumulate(
        &mut self,
        query_i16: &[i16; N_DIMS],
        block: &VectorBlock,
        from: usize,
        to: usize,
    )
        requires
            from <= to <= 14,
            old(self).hold(query_i16@, *block, from as int),
        ensures
            final(self).hold(query_i16@, *block, to as int),
    {
        let mut d: usize = from;
        while d < to
            invariant
                from <= d <= to <= 14,
                self.hold(query_i16@, *block, d as int),
            decreases to - d,
        {
            proof {
                assert forall|slot: int, lane: int| lane != d % 4 implies #[trigger] partial_lane(
                    query_i16@,
                    *block,
                    slot,
                    d + 1,
                    lane,
                ) == partial_lane(query_i16@, *block, slot, d as int, lane) by {
                    lemma_lane_step(query_i16@, *block, slot, d as int);
                }
            }
            if d % 4 == 0 {
                accumulate_lane(query_i16, block, &mut self.a0, d);
            } else if d % 4 == 1 {
                accumulate_lane(query_i16, block, &mut self.a1, d);
            } else if d % 4 == 2 {
                accumulate_lane(query_i16, block, &mut self.a2, d);
            } else {
                accumulate_lane(query_i16, block, &mut self.a3, d);
            }
            d = d + 1;
        }
    }

    /// The lanes added in pairs.
    fn combined(&self) -> (r: [Binary32; BLOCK_SIZE])
        ensures
            forall|slot: int|
                0 <= slot < 8 ==> #[trigger] r@[slot] == self.a0@[slot].add_spec(
                    self.a1@[slot],
                ).add_spec(self.a2@[slot].add_spec(self.a3@[slot])),
    {
        let mut out: [Binary32; BLOCK_SIZE] = [Binary32 { bits: 0 };BLOCK_SIZE];
        let mut slot: usize = 0;
        while slot < BLOCK_SIZE
            invariant
                slot <= 8,
                forall|s: int|
                    0 <= s < slot ==> #[trigger] out@[s] == self.a0@[s].add_spec(
                        self.a1@[s],
                    ).add_spec(self.a2@[s].add_spec(self.a3@[s])),
            decreases 8 - slot,
        {
            let sum = self.a0[slot].add(self.a1[slot]).add(self.a2[slot].add(self.a3[slot]));
            out[slot] = sum;
            slot = slot + 1;
        }
        out
    }
}

/// The running sums of all slots, in the order of the machine.
enum Sums {
    Fused(Lanes),
    Plain([Binary32; BLOCK_SIZE]),
}

impl Sums {
    spec fn fused(&self) -> bool {
        self is Fused
    }

    /// The sums over the first `n` dimensions.
    spec fn hold(&self, query: Seq<i16>, block: VectorBlock, n: int) -> bool {
        match self {
            Sums::Fused(lanes) => lanes.hold(query, block, n),
            Sums::Plain(acc) => forall|slot: int|
                0 <= slot < 8 ==> #[trigger] acc@[slot] == partial_dist(
                    false,
                    query,
                    block,
                    slot,
                    n,
                ),
        }
    }

    fn new(fma: bool, query_i16: &[i16; N_DIMS], block: &VectorBlock) -> (r: Self)
        ensures
            r.fused() == fma,
            r.hold(query_i16@, *block, 0),
    {
        let none: [Binary32; BLOCK_SIZE] = [Binary32 { bits: 0 };BLOCK_SIZE];
        proof {
            lemma_start(query_i16@, *block);
        }
        if fma {
            Sums::Fused(Lanes { a0: none, a1: none, a2: none, a3: none })
        } else {
            Sums::Plain(none)
        }
    }

    /// Adds dimensions `from..to`.
    fn accumulate(
        self,
        query_i16: &[i16; N_DIMS],
        block: &VectorBlock,
        from: usize,
        to: usize,
    ) -> (r: Self)
        requires
            from <= to <= 14,
            self.hold(query_i16@, *block, from as int),
        ensures
            r.fused() == self.fused(),
            r.hold(query_i16@, *block, to as int),
    {
        match self {
            Sums::Fused(lanes) => {
                let mut lanes = lanes;
                lanes.accumulate(query_i16, block, from, to);
                Sums::Fused(lanes)
            },
            Sums::Plain(acc) => {
                let mut acc = acc;
                accumulate(query_i16, block, &mut acc, from, to);
                Sums::Plain(acc)
            },
        }
    }

    /// The distances over the first `n` dimensions.
    fn totals(
        &self,
        Ghost(query): Ghost<Seq<i16>>,
        Ghost(block): Ghost<VectorBlock>,
        Ghost(n): Ghost<int>,
    ) -> (r: [Binary32; BLOCK_SIZE])
        requires
            self.hold(query, block, n),
        ensures
            forall|slot: int|
                0 <= slot < 8 ==> #[trigger] r@[slot] == partial_dist(
                    self.fused(),
                    query,
                    block,
                    slot,
                    n,
                ),
    {
        match self {
            Sums::Fused(lanes) => lanes.combined(),
            Sums::Plain(acc) => *acc,
        }
    }
}

/// Whether every sum exceeds the threshold.
fn all_above(acc: &[Binary32; BLOCK_SIZE], threshold: Binary32) -> (r: bool)
    ensures
        r <==> forall|slot: int| 0 <= slot < 8 ==> threshold.lt_spec(#[trigger] acc@[slot]),
{
    let mut slot: usize = 0;
    while slot < BLOCK_SIZE
        invariant
            slot <= 8,
            forall|s: int| 0 <= s < slot ==> threshold.lt_spec(#[trigger] acc@[s]),
        decreases 8 - slot,
    {
        if !threshold.lt(acc[slot]) {
            return false;
        }
        slot = slot + 1;
    }
    true
}

/// Computes the squared distance from `query_i16` to each vector of the block.
///
/// The distance is taken in quantised space: only the relative order matters.
pub fn scan_block_scalar(query_i16: &[i16; N_DIMS], block: &VectorBlock) -> (r:
    [Binary32; BLOCK_SIZE])
    ensures
        forall|slot: int|
            0 <= slot < 8 ==> #[trigger] r@[slot] == slot_dist(false, query_i16@, *block, slot),
{
    let mut acc: [Binary32; BLOCK_SIZE] = [Binary32 { bits: 0 };BLOCK_SIZE];
    proof {
        lemma_start(query_i16@, *block);
    }
    accumulate(query_i16, block, &mut acc, 0, 14);
    proof {
        lemma_finish(false, query_i16@, *block);
    }
    acc
}

proof fn lemma_start(query: Seq<i16>, block: VectorBlock)
    ensures
        forall|slot: int|
            (#[trigger] partial_dist(false, query, block, slot, 0)).bits == 0,
        forall|slot: int, lane: int|
            (#[trigger] partial_lane(query, block, slot, 0, lane)).bits == 0,
{
}

proof fn lemma_finish(fma: bool, query: Seq<i16>, block: VectorBlock)
    ensures
        forall|slot: int|
            #[trigger] partial_dist(fma, query, block, slot, 14)
                == slot_dist(fma, query, block, slot),
{
    assert forall|slot: int|
        #[trigger] partial_dist(fma, query, block, slot, 14)
            == slot_dist(fma, query, block, slot) by {
        let terms = diff_terms(query, block_vector(block, slot));
        assert(terms.take(14) =~= terms);
    }
}

/// Computes the squared distance from `query_i16` to each vector of the block, on a machine with
/// or without fused multiplication and addition.
///
/// If all partial distances after 8 dimensions already exceed `threshold`, every slot of the
/// result is the largest finite number instead: the remaining dimensions can only increase the
/// distances. Four dimensions are enough to tell the blocks that are far away.
pub fn scan_block(
    query_i16: &[i16; N_DIMS],
    block: &VectorBlock,
    threshold: Binary32,
    fma: bool,
) -> (r: [Binary32; BLOCK_SIZE])
    ensures
        all_far(fma, query_i16@, *block, threshold) ==> forall|slot: int|
            0 <= slot < 8 ==> #[trigger] r@[slot] == max_dist(),
        !all_far(fma, query_i16@, *block, threshold) ==> forall|slot: int|
            0 <= slot < 8 ==> #[trigger] r@[slot] == slot_dist(fma, query_i16@, *block, slot),
{
    let ghost (q, b) = (query_i16@, *block);
    let sums = Sums::new(fma, query_i16, block);
    let sums = sums.accumulate(query_i16, block, 0, 4);
    let acc = sums.totals(Ghost(q), Ghost(b), Ghost(4));
    if all_above(&acc, threshold) {
        proof {
            assert forall|slot: int| 0 <= slot < 8 implies threshold.lt_spec(
                #[trigger] partial_dist(fma, q, b, slot, 8),
            ) by {
                assert(threshold.lt_spec(acc@[slot]));
                lemma_partial_order(fma, q, b, slot, 4, 8);
                lemma_lt_larger(
                    threshold,
                    partial_dist(fma, q, b, slot, 4),
                    partial_dist(fma, q, b, slot, 8),
                );
            }
        }
        return [Binary32 { bits: MAX_BITS };BLOCK_SIZE];
    }
    let sums = sums.accumulate(query_i16, block, 4, 8);
    let acc = sums.totals(Ghost(q), Ghost(b), Ghost(8));
    if all_above(&acc, threshold) {
        assert forall|slot: int| 0 <= slot < 8 implies threshold.lt_spec(
            #[trigger] partial_dist(fma, q, b, slot, 8),
        ) by {
            assert(threshold.lt_spec(acc@[slot]));
        }
        return [Binary32 { bits: MAX_BITS };BLOCK_SIZE];
    }
    proof {
        let slot = choose|slot: int|
            0 <= slot < 8 && !threshold.lt_spec(#[trigger] acc@[slot]);
        assert(!threshold.lt_spec(partial_dist(fma, q, b, slot, 8)));
    }
    let sums = sums.accumulate(query_i16, block, 8, 14);
    proof {
        lemma_finish(fma, q, b);
    }
    sums.totals(Ghost(q), Ghost(b), Ghost(14))
}

} // verus!
