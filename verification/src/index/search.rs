//! Selection of the nearest neighbours.

use vstd::prelude::*;

use crate::binary32::Binary32;
use crate::index::distance::MAX_BITS;
#[allow(unused_imports)]
use crate::index::distance::max_dist;
use crate::index::layout::{VectorBlock, BLOCK_SIZE, N_DIMS};
use crate::index::simd::scan_block;
#[allow(unused_imports)]
use crate::index::simd::{
    all_far, law_early_exit_is_safe, law_slot_dist_in_range, partial_dist, slot_dist,
};
#[allow(unused_imports)]
use crate::laws::neighbours::law_frauds_are_counted_by_label;

verus! {

// ── Top5 ─────────────────────────────────────────────────────────────────────

/// Where a distance goes in a list that is kept in ascending order: behind the last entry that
/// is not farther.
pub open spec fn insert_pos<T>(s: Seq<(Binary32, T)>, dist: Binary32) -> int
    decreases s.len(),
{
    if s.len() == 0 {
        0
    } else if dist.lt_spec(s.last().0) {
        insert_pos(s.drop_last(), dist)
    } else {
        s.len() as int
    }
}

/// The five nearest after one more candidate: it goes behind those that are as near, and the
/// sixth is dropped.
pub open spec fn offered(s: Seq<(Binary32, u8)>, dist: Binary32, label: u8) -> Seq<(Binary32, u8)> {
    if s.len() < 5 {
        s.insert(insert_pos(s, dist), (dist, label))
    } else if dist.lt_spec(s[4].0) {
        s.take(4).insert(insert_pos(s.take(4), dist), (dist, label))
    } else {
        s
    }
}

/// The number of entries labelled as fraud.
pub open spec fn frauds(s: Seq<(Binary32, u8)>) -> nat
    decreases s.len(),
{
    if s.len() == 0 {
        0
    } else {
        frauds(s.drop_last()) + if s.last().1 == 1 {
            1nat
        } else {
            0
        }
    }
}

pub proof fn lemma_frauds_bound(s: Seq<(Binary32, u8)>)
    ensures
        frauds(s) <= s.len(),
    decreases s.len(),
{
    if s.len() > 0 {
        lemma_frauds_bound(s.drop_last());
    }
}

pub proof fn lemma_insert_pos_bounds<T>(s: Seq<(Binary32, T)>, dist: Binary32)
    ensures
        0 <= insert_pos(s, dist) <= s.len(),
    decreases s.len(),
{
    if s.len() > 0 && dist.lt_spec(s.last().0) {
        lemma_insert_pos_bounds(s.drop_last(), dist);
    }
}

/// Fixed-capacity buffer of the five nearest, sorted ascending by distance.
pub struct Top5 {
    /// `(distance, label)` pairs, of which the first `len` are in use, nearest first.
    pub data: [(Binary32, u8); 5],
    pub len: usize,
}

impl View for Top5 {
    type V = Seq<(Binary32, u8)>;

    open spec fn view(&self) -> Seq<(Binary32, u8)> {
        self.data@.take(self.len as int)
    }
}

impl Top5 {
    /// At most five entries are in use.
    pub open spec fn well_formed(&self) -> bool {
        self.len <= 5
    }

    /// The distance that a candidate has to beat.
    pub open spec fn worst_spec(&self) -> Binary32 {
        if self@.len() < 5 {
            max_dist()
        } else {
            self@[4].0
        }
    }

    pub fn new() -> (r: Self)
        ensures
            r.well_formed(),
            r@ == Seq::<(Binary32, u8)>::empty(),
            r.len == 0,
            r.data@ == Seq::new(5, |i: int| (max_dist(), 0u8)),
    {
        Self { data: [(Binary32 { bits: MAX_BITS }, 0);5], len: 0 }
    }

    /// Distance of the farthest entry, or the largest finite number when not full.
    pub fn worst(&self) -> (r: Binary32)
        requires
            self.well_formed(),
        ensures
            r == self.worst_spec(),
    {
        if self.len < 5 {
            Binary32 { bits: MAX_BITS }
        } else {
            self.data[4].0
        }
    }

    /// Inserts `(dist, label)` if it improves the five nearest.
    pub fn try_insert(&mut self, dist: Binary32, label: u8)
        requires
            old(self).well_formed(),
        ensures
            final(self).well_formed(),
            final(self)@ == offered(old(self)@, dist, label),
    {
        if self.len < 5 {
            let end = self.len;
            self.place(end, dist, label);
            self.len = end + 1;
        } else if dist.lt(self.data[4].0) {
            assert(self.data@.take(5).take(4) =~= self.data@.take(4));
            self.place(4, dist, label);
            assert(self.data@.take(5) =~= self.data@);
        }
    }

    /// Inserts into the first `end` entries and shifts those behind by one, over the entry at
    /// `end`.
    fn place(&mut self, end: usize, dist: Binary32, label: u8)
        requires
            end < 5,
        ensures
            final(self).len == old(self).len,
            final(self).data@.take(end + 1) == old(self).data@.take(end as int).insert(
                insert_pos(old(self).data@.take(end as int), dist),
                (dist, label),
            ),
            0 <= insert_pos(old(self).data@.take(end as int), dist) <= end,
    {
        let ghost s = self.data@.take(end as int);
        let mut pos: usize = end;
        assert(s.take(end as int) =~= s);
        while pos > 0 && dist.lt(self.data[pos - 1].0)
            invariant
                pos <= end < 5,
                self.data@ == old(self).data@,
                self.len == old(self).len,
                s == old(self).data@.take(end as int),
                insert_pos(s, dist) == insert_pos(s.take(pos as int), dist),
            decreases pos,
        {
            proof {
                assert(s.take(pos as int).drop_last() =~= s.take(pos - 1));
                assert(s.take(pos as int).last() == s[pos - 1]);
            }
            pos = pos - 1;
        }
        proof {
            if pos > 0 {
                assert(s.take(pos as int).last() == s[pos - 1]);
            }
        }
        assert(insert_pos(s, dist) == pos);
        let mut i: usize = end;
        while i > pos
            invariant
                pos <= i <= end < 5,
                self.len == old(self).len,
                s == old(self).data@.take(end as int),
                forall|j: int| 0 <= j <= i && j < end ==> #[trigger] self.data@[j] == s[j],
                forall|j: int| i < j <= end ==> #[trigger] self.data@[j] == s[j - 1],
            decreases i,
        {
            self.data[i] = self.data[i - 1];
            i = i - 1;
        }
        self.data[pos] = (dist, label);
        assert(self.data@.take(end + 1) =~= s.insert(pos as int, (dist, label)));
    }

    pub fn clear(&mut self)
        ensures
            final(self).well_formed(),
            final(self)@ == Seq::<(Binary32, u8)>::empty(),
    {
        self.len = 0;
    }

    /// Number of fraud labels among the entries.
    pub fn count_fraud(&self) -> (r: usize)
        requires
            self.well_formed(),
        ensures
            r == frauds(self@),
            r == self@.map_values(|e: (Binary32, u8)| e.1).to_multiset().count(1u8),
            r <= self@.len(),
    {
        let mut n: usize = 0;
        let mut i: usize = 0;
        while i < self.len
            invariant
                i <= self.len,
                self.well_formed(),
                n <= i,
                n == frauds(self@.take(i as int)),
            decreases self.len - i,
        {
            proof {
                assert(self@.take(i + 1).drop_last() =~= self@.take(i as int));
                assert(self@.take(i + 1).last() == self.data@[i as int]);
            }
            if self.data[i].1 == 1 {
                n = n + 1;
            }
            i = i + 1;
        }
        assert(self@.take(self.len as int) =~= self@);
        proof {
            law_frauds_are_counted_by_label(self@);
        }
        n
    }

    /// The entries, nearest first.
    pub fn iter(&self) -> (r: Vec<(Binary32, u8)>)
        requires
            self.well_formed(),
        ensures
            r@ == self@,
    {
        let mut out: Vec<(Binary32, u8)> = Vec::new();
        let mut i: usize = 0;
        while i < self.len
            invariant
                i <= self.len,
                self.well_formed(),
                out@ == self@.take(i as int),
            decreases self.len - i,
        {
            out.push(self.data[i]);
            assert(self@.take(i + 1) =~= self@.take(i as int).push(self@[i as int]));
            i = i + 1;
        }
        assert(self@.take(self.len as int) =~= self@);
        out
    }
}

// ── DistF32 ──────────────────────────────────────────────────────────────────

/// A distance with a total order, for use as a heap key. Distances are never NaN.
#[derive(Clone, Copy, Debug)]
pub struct DistF32(pub Binary32);

/// Equality of numbers: both zeros are equal, and what is not a number equals nothing.
pub open spec fn same_number(x: Binary32, y: Binary32) -> bool {
    !x.is_nan_spec() && !y.is_nan_spec() && x.order_key() == y.order_key()
}

impl PartialEq for DistF32 {
    fn eq(&self, other: &Self) -> (r: bool) {
        !self.0.is_nan() && !other.0.is_nan() && !self.0.lt(other.0) && !other.0.lt(self.0)
    }
}

impl vstd::std_specs::cmp::PartialEqSpecImpl for DistF32 {
    open spec fn obeys_eq_spec() -> bool {
        true
    }

    open spec fn eq_spec(&self, other: &Self) -> bool {
        same_number(self.0, other.0)
    }
}

impl Eq for DistF32 {

}

/// The order of two distances; what is not a number counts as equal.
pub open spec fn dist_order(x: Binary32, y: Binary32) -> core::cmp::Ordering {
    if x.lt_spec(y) {
        core::cmp::Ordering::Less
    } else if y.lt_spec(x) {
        core::cmp::Ordering::Greater
    } else {
        core::cmp::Ordering::Equal
    }
}

impl DistF32 {
    pub fn cmp(&self, other: &Self) -> (r: core::cmp::Ordering)
        ensures
            r == dist_order(self.0, other.0),
    {
        if self.0.lt(other.0) {
            core::cmp::Ordering::Less
        } else if other.0.lt(self.0) {
            core::cmp::Ordering::Greater
        } else {
            core::cmp::Ordering::Equal
        }
    }
}

impl PartialOrd for DistF32 {
    fn partial_cmp(&self, other: &Self) -> (r: Option<core::cmp::Ordering>) {
        Some(self.cmp(other))
    }
}

impl vstd::std_specs::cmp::PartialOrdSpecImpl for DistF32 {
    open spec fn obeys_partial_cmp_spec() -> bool {
        true
    }

    open spec fn partial_cmp_spec(&self, other: &Self) -> Option<core::cmp::Ordering> {
        Some(dist_order(self.0, other.0))
    }
}

// ── MaxHeap ──────────────────────────────────────────────────────────────────

/// The order of heap entries: by distance, then by label.
pub open spec fn entry_lt(a: (DistF32, u8), b: (DistF32, u8)) -> bool {
    a.0.0.order_key() < b.0.0.order_key() || (a.0.0.order_key() == b.0.0.order_key() && a.1 < b.1)
}

pub open spec fn entries_sorted(s: Seq<(DistF32, u8)>) -> bool {
    forall|i: int, j: int| 0 <= i < j < s.len() ==> !entry_lt(#[trigger] s[j], #[trigger] s[i])
}

pub open spec fn entries_are_numbers(s: Seq<(DistF32, u8)>) -> bool {
    forall|i: int| 0 <= i < s.len() ==> !(#[trigger] s[i]).0.0.is_nan_spec()
}

/// Where an entry goes: behind the last one that is not larger.
pub open spec fn heap_pos(s: Seq<(DistF32, u8)>, e: (DistF32, u8)) -> int
    decreases s.len(),
{
    if s.len() == 0 {
        0
    } else if entry_lt(e, s.last()) {
        heap_pos(s.drop_last(), e)
    } else {
        s.len() as int
    }
}

/// The entries of a heap after a push, smallest first.
pub open spec fn pushed(s: Seq<(DistF32, u8)>, e: (DistF32, u8)) -> Seq<(DistF32, u8)> {
    s.insert(heap_pos(s, e), e)
}

/// The entries after a candidate was offered to a heap of capacity `k`: a heap that is not full
/// takes it, and a full one takes it in place of its largest entry if it is nearer than that.
pub open spec fn kept(s: Seq<(DistF32, u8)>, k: nat, dist: Binary32, label: u8) -> Seq<
    (DistF32, u8),
> {
    if s.len() < k {
        pushed(s, (DistF32(dist), label))
    } else if s.len() > 0 && dist.lt_spec(s.last().0.0) {
        pushed(s.drop_last(), (DistF32(dist), label))
    } else {
        s
    }
}

/// The entries after all candidates were offered in order.
pub open spec fn kept_all(s: Seq<(DistF32, u8)>, k: nat, cands: Seq<(Binary32, u8)>) -> Seq<
    (DistF32, u8),
>
    decreases cands.len(),
{
    if cands.len() == 0 {
        s
    } else {
        kept(kept_all(s, k, cands.drop_last()), k, cands.last().0, cands.last().1)
    }
}

proof fn lemma_heap_pos(s: Seq<(DistF32, u8)>, e: (DistF32, u8))
    requires
        entries_sorted(s),
    ensures
        0 <= heap_pos(s, e) <= s.len(),
        forall|i: int| 0 <= i < heap_pos(s, e) ==> !entry_lt(e, #[trigger] s[i]),
        forall|i: int| heap_pos(s, e) <= i < s.len() ==> entry_lt(e, #[trigger] s[i]),
    decreases s.len(),
{
    if s.len() > 0 {
        if entry_lt(e, s.last()) {
            assert(entries_sorted(s.drop_last()));
            lemma_heap_pos(s.drop_last(), e);
            assert forall|i: int| 0 <= i < heap_pos(s, e) implies !entry_lt(e, #[trigger] s[i]) by {
                assert(s.drop_last()[i] == s[i]);
            }
            assert forall|i: int| heap_pos(s, e) <= i < s.len() implies entry_lt(
                e,
                #[trigger] s[i],
            ) by {
                if i < s.len() - 1 {
                    assert(s.drop_last()[i] == s[i]);
                }
            }
        } else {
            assert forall|i: int| 0 <= i < s.len() implies !entry_lt(e, #[trigger] s[i]) by {
                if i < s.len() - 1 {
                    assert(!entry_lt(s[s.len() - 1], s[i]));
                }
            }
        }
    }
}

/// A push keeps the entries in order and adds exactly the new one.
pub proof fn law_push_keeps_order(s: Seq<(DistF32, u8)>, e: (DistF32, u8))
    requires
        entries_sorted(s),
        entries_are_numbers(s),
        !e.0.0.is_nan_spec(),
    ensures
        entries_sorted(pushed(s, e)),
        entries_are_numbers(pushed(s, e)),
        pushed(s, e).len() == s.len() + 1,
        pushed(s, e).to_multiset() == s.to_multiset().insert(e),
{
    lemma_heap_pos(s, e);
    let p = heap_pos(s, e);
    let r = pushed(s, e);
    assert forall|i: int, j: int| 0 <= i < j < r.len() implies !entry_lt(
        #[trigger] r[j],
        #[trigger] r[i],
    ) by {
        let si = if i < p {
            s[i]
        } else {
            s[i - 1]
        };
        let sj = if j < p {
            s[j]
        } else {
            s[j - 1]
        };
    }
    broadcast use vstd::seq_lib::group_to_multiset_ensures;

}

/// A max-heap of `(distance, label)` entries: the farthest is on top, so that it can be evicted
/// when a nearer one arrives.
pub struct MaxHeap {
    entries: Vec<(DistF32, u8)>,
}

impl View for MaxHeap {
    type V = Seq<(DistF32, u8)>;

    /// The entries, smallest first.
    closed spec fn view(&self) -> Seq<(DistF32, u8)> {
        self.entries@
    }
}

impl MaxHeap {
    pub open spec fn well_formed(&self) -> bool {
        entries_sorted(self@) && entries_are_numbers(self@)
    }

    pub fn new() -> (r: Self)
        ensures
            r.well_formed(),
            r@ == Seq::<(DistF32, u8)>::empty(),
    {
        Self { entries: Vec::new() }
    }

    pub fn len(&self) -> (r: usize)
        ensures
            r == self@.len(),
    {
        self.entries.len()
    }

    /// The largest entry.
    pub fn peek(&self) -> (r: Option<(DistF32, u8)>)
        ensures
            self@.len() == 0 ==> r is None,
            self@.len() > 0 ==> r == Some(self@.last()),
    {
        if self.entries.len() == 0 {
            None
        } else {
            Some(self.entries[self.entries.len() - 1])
        }
    }

    /// Removes the largest entry.
    pub fn pop(&mut self) -> (r: Option<(DistF32, u8)>)
        requires
            old(self).well_formed(),
        ensures
            final(self).well_formed(),
            old(self)@.len() == 0 ==> r is None && final(self)@ == old(self)@,
            old(self)@.len() > 0 ==> r == Some(old(self)@.last()) && final(self)@
                == old(self)@.drop_last(),
    {
        self.entries.pop()
    }

    /// Adds an entry.
    pub fn push(&mut self, entry: (DistF32, u8))
        requires
            old(self).well_formed(),
            !entry.0.0.is_nan_spec(),
        ensures
            final(self).well_formed(),
            final(self)@ == pushed(old(self)@, entry),
    {
        let ghost s = self.entries@;
        let mut pos: usize = self.entries.len();
        assert(s.take(pos as int) =~= s);
        while pos > 0 && Self::before(entry, self.entries[pos - 1])
            invariant
                pos <= s.len(),
                s == self.entries@,
                self.well_formed(),
                !entry.0.0.is_nan_spec(),
                self.entries@ == old(self).entries@,
                heap_pos(s, entry) == heap_pos(s.take(pos as int), entry),
            decreases pos,
        {
            proof {
                assert(s.take(pos as int).drop_last() =~= s.take(pos - 1));
                assert(s.take(pos as int).last() == s[pos - 1]);
            }
            pos = pos - 1;
        }
        proof {
            if pos > 0 {
                assert(s.take(pos as int).last() == s[pos - 1]);
            }
            law_push_keeps_order(s, entry);
        }
        self.entries.insert(pos, entry);
    }

    fn before(a: (DistF32, u8), b: (DistF32, u8)) -> (r: bool)
        requires
            !a.0.0.is_nan_spec(),
            !b.0.0.is_nan_spec(),
        ensures
            r == entry_lt(a, b),
    {
        if a.0.0.lt(b.0.0) {
            true
        } else if b.0.0.lt(a.0.0) {
            false
        } else {
            a.1 < b.1
        }
    }

    /// The entries, smallest first.
    pub fn into_sorted_vec(self) -> (r: Vec<(DistF32, u8)>)
        ensures
            r@ == self@,
    {
        self.entries
    }
}

// ── Block scan ───────────────────────────────────────────────────────────────

/// How many slots of the blocks have a label.
pub open spec fn labelled(blocks: Seq<VectorBlock>, labels: Seq<u8>) -> nat {
    if 8 * blocks.len() <= labels.len() {
        8 * blocks.len()
    } else {
        labels.len()
    }
}

/// The distance and label of every labelled slot, in order.
pub open spec fn candidates(
    fma: bool,
    query: Seq<i16>,
    blocks: Seq<VectorBlock>,
    labels: Seq<u8>,
) -> Seq<
    (Binary32, u8),
> {
    Seq::new(
        labelled(blocks, labels),
        |i: int| (slot_dist(fma, query, blocks[i / 8], i % 8), labels[i]),
    )
}

/// The five nearest after all candidates were offered in order.
pub open spec fn offered_all(s: Seq<(Binary32, u8)>, cands: Seq<(Binary32, u8)>) -> Seq<
    (Binary32, u8),
>
    decreases cands.len(),
{
    if cands.len() == 0 {
        s
    } else {
        offered(offered_all(s, cands.drop_last()), cands.last().0, cands.last().1)
    }
}

/// A vector of a block that is given up early would not have been taken.
proof fn lemma_far_not_offered(
    fma: bool,
    query: Seq<i16>,
    block: VectorBlock,
    s: Seq<(Binary32, u8)>,
    slot: int,
    label: u8,
)
    requires
        0 <= slot < 8,
        s.len() <= 5,
        all_far(
            fma,
            query,
            block,
            if s.len() < 5 {
                max_dist()
            } else {
                s[4].0
            },
        ),
    ensures
        offered(s, slot_dist(fma, query, block, slot), label) == s,
{
    let t = if s.len() < 5 {
        max_dist()
    } else {
        s[4].0
    };
    assert(t.lt_spec(partial_dist(fma, query, block, slot, 8)));
    law_early_exit_is_safe(fma, query, block, t, slot, 8);
    law_slot_dist_in_range(fma, query, block, slot);
    lemma_lt_asym(t, slot_dist(fma, query, block, slot));
}

proof fn lemma_lt_asym(x: Binary32, y: Binary32)
    ensures
        !(x.lt_spec(y) && y.lt_spec(x)),
{
}

/// Scans the blocks of a cluster and updates the five nearest in place.
///
/// `labels` holds one label per slot; slots without one are not taken.
pub fn update_top5_blocks(
    query_i16: &[i16; N_DIMS],
    blocks: &[VectorBlock],
    labels: &[u8],
    top5: &mut Top5,
    fma: bool,
)
    requires
        old(top5).well_formed(),
    ensures
        final(top5).well_formed(),
        final(top5)@ == offered_all(old(top5)@, candidates(fma, query_i16@, blocks@, labels@)),
{
    let ghost cands = candidates(fma, query_i16@, blocks@, labels@);
    let mut threshold = top5.worst();
    let mut base: usize = 0;
    let mut b_idx: usize = 0;
    assert(cands.take(0) =~= Seq::<(Binary32, u8)>::empty());
    while b_idx < blocks.len() && base < labels.len()
        invariant
            b_idx <= blocks.len(),
            base == 8 * b_idx || (base == labels.len() && labels.len() <= 8 * b_idx),
            base <= labels.len(),
            top5.well_formed(),
            cands == candidates(fma, query_i16@, blocks@, labels@),
            top5@ == offered_all(old(top5)@, cands.take(base as int)),
            threshold == top5.worst_spec(),
        decreases blocks.len() - b_idx,
    {
        let block = &blocks[b_idx];
        let dists = scan_block(query_i16, block, threshold, fma);
        let mut slot: usize = 0;
        let ghost start = top5@;
        while slot < BLOCK_SIZE && slot < labels.len() - base
            invariant
                slot <= 8,
                b_idx < blocks.len(),
                base == 8 * b_idx,
                base + slot <= labels.len(),
                top5.well_formed(),
                block == blocks@[b_idx as int],
                cands == candidates(fma, query_i16@, blocks@, labels@),
                top5@ == offered_all(old(top5)@, cands.take(base + slot)),
                all_far(fma, query_i16@, *block, threshold) ==> start == top5@ && forall|s: int|
                    0 <= s < 8 ==> #[trigger] dists@[s] == max_dist(),
                !all_far(fma, query_i16@, *block, threshold) ==> forall|s: int|
                    0 <= s < 8 ==> #[trigger] dists@[s] == slot_dist(fma, query_i16@, *block, s),
                threshold == if start.len() < 5 {
                    max_dist()
                } else {
                    start[4].0
                },
            decreases 8 - slot,
        {
            let d = dists[slot];
            let label = labels[base + slot];
            proof {
                let i = base + slot;
                assert(i / 8 == b_idx && i % 8 == slot);
                assert(cands.take(i + 1).drop_last() =~= cands.take(i));
                assert(cands.take(i + 1).last() == (
                    slot_dist(fma, query_i16@, *block, slot as int),
                    label,
                ));
                law_slot_dist_in_range(fma, query_i16@, *block, slot as int);
                if all_far(fma, query_i16@, *block, threshold) {
                    lemma_far_not_offered(fma, query_i16@, *block, top5@, slot as int, label);
                }
            }
            if d.bits != MAX_BITS {
                top5.try_insert(d, label);
            }
            slot = slot + 1;
        }
        base = base + slot;
        b_idx = b_idx + 1;
        threshold = top5.worst();
    }
    assert(cands.take(base as int) =~= cands);
}

/// A vector of a block that is given up early would not have been kept.
proof fn lemma_far_not_kept(
    fma: bool,
    query: Seq<i16>,
    block: VectorBlock,
    s: Seq<(DistF32, u8)>,
    k: nat,
    slot: int,
    label: u8,
    threshold: Binary32,
)
    requires
        0 <= slot < 8,
        threshold == heap_threshold(s, k),
        all_far(fma, query, block, threshold),
    ensures
        kept(s, k, slot_dist(fma, query, block, slot), label) == s,
{
    assert(threshold.lt_spec(partial_dist(fma, query, block, slot, 8)));
    law_early_exit_is_safe(fma, query, block, threshold, slot, 8);
    law_slot_dist_in_range(fma, query, block, slot);
    lemma_lt_asym(threshold, slot_dist(fma, query, block, slot));
}

/// What a candidate has to beat: the largest distance of a full heap.
pub open spec fn heap_threshold(s: Seq<(DistF32, u8)>, k: nat) -> Binary32 {
    if s.len() >= k && s.len() > 0 {
        s.last().0.0
    } else {
        max_dist()
    }
}

fn threshold_of(heap: &MaxHeap, k: usize) -> (r: Binary32)
    ensures
        r == heap_threshold(heap@, k as nat),
{
    if heap.len() >= k {
        match heap.peek() {
            Some(top) => top.0.0,
            None => Binary32 { bits: MAX_BITS },
        }
    } else {
        Binary32 { bits: MAX_BITS }
    }
}

/// Scans the blocks of a cluster and updates a heap of the `k` nearest, which is shared by the
/// clusters.
///
/// `labels` holds one label per slot; slots without one are not taken.
pub fn update_top_k_blocks(
    query_i16: &[i16; N_DIMS],
    blocks: &[VectorBlock],
    labels: &[u8],
    k: usize,
    heap: &mut MaxHeap,
    fma: bool,
)
    requires
        old(heap).well_formed(),
    ensures
        final(heap).well_formed(),
        final(heap)@ == kept_all(
            old(heap)@,
            k as nat,
            candidates(fma, query_i16@, blocks@, labels@),
        ),
{
    let ghost cands = candidates(fma, query_i16@, blocks@, labels@);
    let mut threshold = threshold_of(heap, k);
    let mut base: usize = 0;
    let mut b_idx: usize = 0;
    assert(cands.take(0) =~= Seq::<(Binary32, u8)>::empty());
    while b_idx < blocks.len() && base < labels.len()
        invariant
            b_idx <= blocks.len(),
            base == 8 * b_idx || (base == labels.len() && labels.len() <= 8 * b_idx),
            base <= labels.len(),
            heap.well_formed(),
            cands == candidates(fma, query_i16@, blocks@, labels@),
            heap@ == kept_all(old(heap)@, k as nat, cands.take(base as int)),
            threshold == heap_threshold(heap@, k as nat),
        decreases blocks.len() - b_idx,
    {
        let block = &blocks[b_idx];
        let dists = scan_block(query_i16, block, threshold, fma);
        let mut slot: usize = 0;
        let ghost start = heap@;
        while slot < BLOCK_SIZE && slot < labels.len() - base
            invariant
                slot <= 8,
                b_idx < blocks.len(),
                base == 8 * b_idx,
                base + slot <= labels.len(),
                heap.well_formed(),
                block == blocks@[b_idx as int],
                cands == candidates(fma, query_i16@, blocks@, labels@),
                heap@ == kept_all(old(heap)@, k as nat, cands.take(base + slot)),
                all_far(fma, query_i16@, *block, threshold) ==> start == heap@ && forall|s: int|
                    0 <= s < 8 ==> #[trigger] dists@[s] == max_dist(),
                !all_far(fma, query_i16@, *block, threshold) ==> forall|s: int|
                    0 <= s < 8 ==> #[trigger] dists@[s] == slot_dist(fma, query_i16@, *block, s),
                threshold == heap_threshold(start, k as nat),
            decreases 8 - slot,
        {
            let d = dists[slot];
            let label = labels[base + slot];
            proof {
                let i = base + slot;
                assert(i / 8 == b_idx && i % 8 == slot);
                assert(cands.take(i + 1).drop_last() =~= cands.take(i));
                assert(cands.take(i + 1).last() == (
                    slot_dist(fma, query_i16@, *block, slot as int),
                    label,
                ));
                law_slot_dist_in_range(fma, query_i16@, *block, slot as int);
                if all_far(fma, query_i16@, *block, threshold) {
                    lemma_far_not_kept(
                        fma,
                        query_i16@,
                        *block,
                        heap@,
                        k as nat,
                        slot as int,
                        label,
                        threshold,
                    );
                }
            }
            if d.bits != MAX_BITS {
                if heap.len() < k {
                    heap.push((DistF32(d), label));
                } else {
                    match heap.peek() {
                        Some(top) => {
                            if d.lt(top.0.0) {
                                heap.pop();
                                heap.push((DistF32(d), label));
                            }
                        },
                        None => {},
                    }
                }
            }
            slot = slot + 1;
        }
        base = base + slot;
        b_idx = b_idx + 1;
        threshold = threshold_of(heap, k);
    }
    assert(cands.take(base as int) =~= cands);
}

} // verus!
