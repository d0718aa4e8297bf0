//! What a search gives: entries of the index, and their labels.

use vstd::prelude::*;

use crate::binary32::Binary32;
#[allow(unused_imports)]
use crate::binary32::{fifth_bits, lemma_fifth};
#[allow(unused_imports)]
use crate::index::distance::{is_dist, lemma_order_of_nonneg, max_dist};
#[allow(unused_imports)]
use crate::index::knn::{lemma_renamed, lemma_slots};
use crate::index::layout::{IndexLayout, VectorBlock};
#[allow(unused_imports)]
use crate::index::nearest::{
    all_dists, as_entries, by_distance, five_nearest, law_full_scan_is_exact,
    law_pruned_search_is_exact, law_results_are_in_order, lemma_insert_pos_order,
    lemma_push_dists, lemma_seen_is_stored, lemma_visited_seen,
};
use crate::index::search::DistF32;
#[allow(unused_imports)]
use crate::index::search::{
    candidates, dist_order, entries_sorted, entry_lt, frauds, heap_pos, insert_pos, kept, kept_all,
    lemma_frauds_bound, offered, offered_all, pushed, same_number, Top5,
};
#[allow(unused_imports)]
use crate::index::simd::{all_far, block_vector, diff_terms, partial_dist, slot_dist, vector_dist};
#[allow(unused_imports)]
use crate::index::{block_offset, law_offsets_ascend};

verus! {

// ── Labels ───────────────────────────────────────────────────────────────────

/// The frauds among some entries are those whose label is one, whatever their distances.
pub proof fn law_frauds_are_counted_by_label(s: Seq<(Binary32, u8)>)
    ensures
        frauds(s) == s.map_values(|e: (Binary32, u8)| e.1).to_multiset().count(1u8),
    decreases s.len(),
{
    broadcast use vstd::seq_lib::group_to_multiset_ensures;
    broadcast use vstd::multiset::group_multiset_axioms;

    let label = |e: (Binary32, u8)| e.1;
    let labels = s.map_values(label);
    if s.len() == 0 {
        assert(labels.to_multiset() =~= vstd::multiset::Multiset::empty());
    } else {
        law_frauds_are_counted_by_label(s.drop_last());
        assert(labels =~= s.drop_last().map_values(label).push(s.last().1));
    }
}

/// Entries with the same labels hold the same number of frauds.
pub proof fn law_frauds_ignore_distances(s: Seq<(Binary32, u8)>, t: Seq<(Binary32, u8)>)
    requires
        s.len() == t.len(),
        forall|i: int| 0 <= i < s.len() ==> (#[trigger] s[i]).1 == (#[trigger] t[i]).1,
    ensures
        frauds(s) == frauds(t),
{
    let label = |e: (Binary32, u8)| e.1;
    law_frauds_are_counted_by_label(s);
    law_frauds_are_counted_by_label(t);
    assert(s.map_values(label) =~= t.map_values(label));
}

/// One more entry is one more fraud if its label is one, and none else; where it stands does not
/// matter.
pub proof fn law_each_fraud_counts_once(s: Seq<(Binary32, u8)>, at: int, dist: Binary32, label: u8)
    requires
        0 <= at <= s.len(),
    ensures
        frauds(s.insert(at, (dist, label))) == frauds(s) + if label == 1 {
            1nat
        } else {
            0
        },
{
    broadcast use vstd::seq_lib::group_to_multiset_ensures;
    broadcast use vstd::multiset::group_multiset_axioms;

    let of = |e: (Binary32, u8)| e.1;
    let more = s.insert(at, (dist, label));
    law_frauds_are_counted_by_label(s);
    law_frauds_are_counted_by_label(more);
    assert(more.map_values(of) =~= s.map_values(of).insert(at, label));
    assert(s.map_values(of).insert(at, label).to_multiset() =~= s.map_values(
        of,
    ).to_multiset().insert(label));
}

/// The fraud score tells how many of the five nearest have the label one: zero, one fifth, two
/// fifths, three, four or one, each the nearest in single precision.
pub proof fn law_score_tells_labels(fma: bool, l: IndexLayout, q: Seq<i16>)
    requires
        l.consistent(),
    ensures
        ({
            let five = l.nearest_five(fma, q);
            let n = five.map_values(|e: (Binary32, u8)| e.1).to_multiset().count(1u8);
            let score = Binary32::of_int(frauds(five) as int).div_spec(Binary32::of_int(5));
            &&& five.len() <= 5
            &&& n <= 5
            &&& n == 0 ==> score.bits == 0
            &&& n == 1 ==> score.bits == 0x3E4C_CCCD
            &&& n == 2 ==> score.bits == 0x3ECC_CCCD
            &&& n == 3 ==> score.bits == 0x3F19_999A
            &&& n == 4 ==> score.bits == 0x3F4C_CCCD
            &&& n == 5 ==> score.bits == 0x3F80_0000
        }),
{
    let five = l.nearest_five(fma, q);
    law_results_are_in_order(fma, l, q);
    law_frauds_are_counted_by_label(five);
    lemma_frauds_bound(five);
    lemma_fifth(frauds(five));
}

// ── Slots ────────────────────────────────────────────────────────────────────

/// The clusters follow each other from the first block on, and each takes an eighth of its size.
pub proof fn law_clusters_take_their_blocks(sizes: Seq<u32>, i: nat)
    requires
        i < sizes.len(),
    ensures
        block_offset(sizes, 0) == 0,
        block_offset(sizes, i + 1) - block_offset(sizes, i) == sizes[i as int] / 8,
{
}

/// Slot `j` of the index is the vector that block `j / 8` holds at every eighth place from
/// `j % 8` on, and carries the label `j`; its entry is the distance to that vector and that label.
pub proof fn law_slots_are_vectors_and_labels(fma: bool, l: IndexLayout, q: Seq<i16>, j: int)
    requires
        l.consistent(),
    ensures
        ({
            let s = l.slots(fma, q, l.cluster_sizes@.len());
            &&& s.len() == 8 * block_offset(l.cluster_sizes@, l.cluster_sizes@.len())
            &&& 0 <= j < s.len() ==> s[j].0 == vector_dist(
                fma,
                q,
                Seq::new(14, |d: int| l.blocks@[j / 8].data@[8 * d + j % 8]),
            )
            &&& 0 <= j < s.len() ==> s[j].1 == l.labels@[j]
        }),
{
    lemma_slots(fma, l, q, l.cluster_sizes@.len());
    if 0 <= j < l.slots(fma, q, l.cluster_sizes@.len()).len() {
        lemma_slot(fma, l, q, l.cluster_sizes@.len(), j);
    }
}

proof fn lemma_slot(fma: bool, l: IndexLayout, q: Seq<i16>, n: nat, j: int)
    requires
        l.consistent(),
        n <= l.cluster_sizes@.len(),
        0 <= j < 8 * l.cluster_start(n as int),
    ensures
        j < l.slots(fma, q, n).len(),
        l.slots(fma, q, n)[j].0 == vector_dist(
            fma,
            q,
            Seq::new(14, |d: int| l.blocks@[j / 8].data@[8 * d + j % 8]),
        ),
        l.slots(fma, q, n)[j].1 == l.labels@[j],
    decreases n,
{
    let sizes = l.cluster_sizes@;
    lemma_slots(fma, l, q, n);
    lemma_slots(fma, l, q, (n - 1) as nat);
    let bs = l.cluster_start(n - 1);
    let be = l.cluster_start(n as int);
    law_offsets_ascend(sizes, (n - 1) as nat, n);
    law_offsets_ascend(sizes, n, sizes.len());
    if j < 8 * bs {
        lemma_slot(fma, l, q, (n - 1) as nat, j);
    } else {
        let cands = l.cluster_candidates(fma, q, n - 1);
        let at = j - 8 * bs;
        assert(at / 8 == j / 8 - bs && at % 8 == j % 8);
        assert(cands.len() == 8 * (be - bs));
        assert(l.slots(fma, q, n)[j] == cands[at]);
        assert(l.blocks@.subrange(bs as int, be as int)[at / 8] == l.blocks@[j / 8]);
        assert(l.labels@.subrange(8 * bs as int, 8 * be as int)[at] == l.labels@[j]);
        assert(block_vector(l.blocks@[j / 8], j % 8) =~= Seq::new(
            14,
            |d: int| l.blocks@[j / 8].data@[8 * d + j % 8],
        ));
    }
}

// ── Results ──────────────────────────────────────────────────────────────────

/// Up to five results are the first of the five nearest, each with the distance and the label of
/// the same entry.
pub proof fn law_few_results_are_the_first(fma: bool, l: IndexLayout, q: Seq<i16>, k: nat, i: int)
    requires
        k <= 5,
    ensures
        ({
            let five = l.nearest_five(fma, q);
            let r = l.knn(fma, q, k);
            &&& k <= five.len() ==> r.len() == k
            &&& k > five.len() ==> r.len() == five.len()
            &&& 0 <= i < r.len() ==> r[i].0.0 == five[i].0 && r[i].1 == five[i].1
        }),
{
}

/// Every result is the distance and the label of one slot: as pairs the results are among the
/// slots of the index, none more often than the index holds it, in ascending order of distance.
pub proof fn law_results_are_slots(fma: bool, l: IndexLayout, q: Seq<i16>, k: nat)
    requires
        l.consistent(),
    ensures
        ({
            let r = l.knn(fma, q, k);
            let slots = l.slots(fma, q, l.cluster_sizes@.len());
            &&& r.map_values(|e: (DistF32, u8)| (e.0.0, e.1)).to_multiset().subset_of(
                slots.to_multiset(),
            )
            &&& forall|i: int, j: int|
                0 <= i <= j < r.len() ==> (#[trigger] r[i]).0.0.bits <= (#[trigger] r[j]).0.0.bits
        }),
{
    let n = l.cluster_sizes@.len();
    let r = l.knn(fma, q, k);
    let slots = l.slots(fma, q, n);
    let f = |e: (DistF32, u8)| (e.0.0, e.1);
    lemma_slots(fma, l, q, n);
    if k <= 5 {
        let five = l.nearest_five(fma, q);
        lemma_five_are_slots(fma, l, q);
        law_results_are_in_order(fma, l, q);
        let m = if k <= five.len() {
            k as int
        } else {
            five.len() as int
        };
        lemma_take_subset(five, m, slots.to_multiset());
        assert(r.map_values(f) =~= five.take(m));
    } else {
        law_full_scan_is_exact(fma, l, q, k, n);
        let entries = as_entries(slots);
        lemma_renamed(r, entries, f, (Binary32 { bits: 0 }, 0u8));
        assert(entries.map_values(f) =~= slots);
        assert forall|i: int, j: int| 0 <= i <= j < r.len() implies (#[trigger] r[i]).0.0.bits <= (
        #[trigger] r[j]).0.0.bits by {
            assert(is_dist(r[i].0.0) && is_dist(r[j].0.0));
            if i < j {
                assert(!entry_lt(r[j], r[i]));
            }
        }
    }
}

/// No slot that is left out is nearer than a result, and none is left out while there are fewer
/// than `k` results. For up to five results the bounds of each cluster have to cover its vectors.
pub proof fn law_no_nearer_slot_is_left_out(
    fma: bool,
    l: IndexLayout,
    q: Seq<i16>,
    k: nat,
    e: (Binary32, u8),
    i: int,
)
    requires
        q.len() == 14,
        l.consistent(),
        k <= 5 ==> l.covered(),
    ensures
        ({
            let r = l.knn(fma, q, k);
            let slots = l.slots(fma, q, l.cluster_sizes@.len());
            slots.to_multiset().sub(
                r.map_values(|e: (DistF32, u8)| (e.0.0, e.1)).to_multiset(),
            ).count(e) > 0 ==> r.len() == k && (0 <= i < k ==> r[i].0.0.bits <= e.0.bits)
        }),
{
    broadcast use vstd::seq_lib::group_to_multiset_ensures;
    broadcast use vstd::multiset::group_multiset_axioms;

    let n = l.cluster_sizes@.len();
    let r = l.knn(fma, q, k);
    let slots = l.slots(fma, q, n);
    let f = |e: (DistF32, u8)| (e.0.0, e.1);
    lemma_slots(fma, l, q, n);
    law_results_are_slots(fma, l, q, k);
    if slots.to_multiset().sub(r.map_values(f).to_multiset()).count(e) > 0 {
        if k <= 5 {
            let five = l.nearest_five(fma, q);
            law_pruned_search_is_exact(fma, l, q);
            let m = if k <= five.len() {
                k as int
            } else {
                five.len() as int
            };
            assert(r.map_values(f) =~= five.take(m));
            lemma_left_out(five, m, slots.to_multiset(), e);
            assert(five.len() == 5 || m < five.len());
            assert(m == k);
            if 0 <= i < k {
                assert(r[i].0.0 == five[i].0);
            }
        } else {
            law_full_scan_is_exact(fma, l, q, k, n);
            let entries = as_entries(slots);
            assert(entries.map_values(f) =~= slots);
            lemma_renamed(r, entries, f, e);
            let a = choose|a: (DistF32, u8)|
                f(a) == e && #[trigger] entries.to_multiset().sub(r.to_multiset()).count(a) > 0;
            assert(r[k - 1].0.0.bits <= a.0.0.bits);
            if 0 <= i < k {
                assert(r[i].0.0.bits <= r[k - 1].0.0.bits);
            }
        }
    }
}

/// What the pruned search finds is stored.
proof fn lemma_five_are_slots(fma: bool, l: IndexLayout, q: Seq<i16>)
    requires
        l.consistent(),
    ensures
        l.nearest_five(fma, q).to_multiset().subset_of(
            l.slots(fma, q, l.cluster_sizes@.len()).to_multiset(),
        ),
{
    broadcast use vstd::seq_lib::group_to_multiset_ensures;

    let start = Seq::<(Binary32, u8)>::empty();
    let visits = l.visits(fma, q);
    assert(five_nearest(start, l.seen(fma, q, visits, 0))) by {
        broadcast use vstd::multiset::group_multiset_axioms;

        assert(start.to_multiset() =~= vstd::multiset::Multiset::empty());
    }
    lemma_visited_seen(fma, l, q, start, 0);
    let m = l.stops_at(fma, q, start, visits, 0);
    lemma_seen_is_stored(fma, l, q, m as nat);
    lemma_slots(fma, l, q, l.cluster_sizes@.len());
    let five = l.nearest_five(fma, q);
    let seen = l.seen(fma, q, visits, m as nat);
    let all = l.all_candidates(fma, q, l.cluster_sizes@.len());
    assert forall|e: (Binary32, u8)| five.to_multiset().count(e) <= #[trigger] all.count(e) by {
        assert(five.to_multiset().count(e) <= seen.count(e) <= all.count(e));
    }
}

proof fn lemma_take_subset<A>(s: Seq<A>, m: int, all: vstd::multiset::Multiset<A>)
    requires
        0 <= m <= s.len(),
        s.to_multiset().subset_of(all),
    ensures
        s.take(m).to_multiset().subset_of(all),
{
    broadcast use vstd::seq_lib::group_to_multiset_ensures;
    broadcast use vstd::multiset::group_multiset_axioms;

    vstd::seq_lib::lemma_multiset_commutative(s.take(m), s.skip(m));
    assert(s =~= s.take(m) + s.skip(m));
    assert forall|a: A| s.take(m).to_multiset().count(a) <= #[trigger] all.count(a) by {
        assert(s.to_multiset().count(a) <= all.count(a));
    }
}

/// What the first of five leave out is one of the others or was left out before.
proof fn lemma_left_out(
    s: Seq<(Binary32, u8)>,
    m: int,
    all: vstd::multiset::Multiset<(Binary32, u8)>,
    e: (Binary32, u8),
)
    requires
        five_nearest(s, all),
        0 <= m <= s.len(),
        all.sub(s.take(m).to_multiset()).count(e) > 0,
    ensures
        m < s.len() || s.len() == 5,
        forall|i: int| 0 <= i < m ==> (#[trigger] s[i]).0.bits <= e.0.bits,
{
    broadcast use vstd::seq_lib::group_to_multiset_ensures;
    broadcast use vstd::multiset::group_multiset_axioms;

    let (a, b) = (s.take(m), s.skip(m));
    vstd::seq_lib::lemma_multiset_commutative(a, b);
    assert(s =~= a + b);
    if b.to_multiset().count(e) > 0 {
        assert(b.contains(e));
        let j = choose|j: int| 0 <= j < b.len() && b[j] == e;
        assert forall|i: int| 0 <= i < m implies (#[trigger] s[i]).0.bits <= e.0.bits by {
            assert(s[i].0.bits <= s[m + j].0.bits);
        }
    } else {
        assert(all.sub(s.to_multiset()).count(e) > 0);
        assert forall|i: int| 0 <= i < m implies (#[trigger] s[i]).0.bits <= e.0.bits by {
            assert(s[i].0.bits <= s[4].0.bits);
        }
    }
}

// ── Ties ─────────────────────────────────────────────────────────────────────

/// A candidate goes behind the entries that are as near as it and before those that are farther;
/// the others keep their order, and of six the last is dropped. One that is not nearer than the
/// fifth changes nothing.
pub proof fn law_candidate_goes_behind_its_equals(
    s: Seq<(Binary32, u8)>,
    d: Binary32,
    label: u8,
) -> (at: int)
    requires
        s.len() <= 5,
        forall|i: int, j: int|
            0 <= i <= j < s.len() ==> (#[trigger] s[i]).0.bits <= (#[trigger] s[j]).0.bits,
        forall|i: int| 0 <= i < s.len() ==> (#[trigger] s[i]).0.bits <= 0x5900_0000,
        d.bits <= 0x5900_0000,
    ensures
        ({
            let r = offered(s, d, label);
            let six = s.insert(at, (d, label));
            &&& 0 <= at <= s.len()
            &&& forall|i: int| 0 <= i < at ==> (#[trigger] s[i]).0.bits <= d.bits
            &&& forall|i: int| at <= i < s.len() ==> d.bits < (#[trigger] s[i]).0.bits
            &&& s.len() < 5 ==> r == six
            &&& s.len() == 5 ==> r == six.take(5)
        }),
{
    assert(by_distance(s) && all_dists(s));
    lemma_insert_pos_order(s, d);
    let at = insert_pos(s, d);
    if s.len() == 5 {
        lemma_order_of_nonneg(d, s[4].0);
        let h = s.take(4);
        assert(by_distance(h) && all_dists(h)) by {
            assert forall|i: int, j: int| 0 <= i <= j < h.len() implies (#[trigger] h[i]).0.bits
                <= (#[trigger] h[j]).0.bits by {
                assert(s[i].0.bits <= s[j].0.bits);
            }
            assert forall|i: int| 0 <= i < h.len() implies is_dist((#[trigger] h[i]).0) by {
                assert(is_dist(s[i].0));
            }
        }
        lemma_insert_pos_order(h, d);
        let p = insert_pos(h, d);
        if d.lt_spec(s[4].0) {
            if p < at {
                assert(h[p] == s[p]);
            } else if at < p {
                assert(h[at] == s[at]);
            }
            assert(offered(s, d, label) =~= s.insert(at, (d, label)).take(5));
        } else {
            assert(s[4].0.bits <= d.bits);
            assert(at == 5) by {
                if at < 5 {
                    assert(s[at].0.bits <= s[4].0.bits);
                }
            }
            assert(offered(s, d, label) =~= s.insert(at, (d, label)).take(5));
        }
    }
    at
}

/// A heap in ascending order of distance and then label stays so. With room it takes every
/// candidate; a full one gives up its last entry for a nearer candidate, and else stays as it is.
pub proof fn law_heap_gives_up_its_last(
    s: Seq<(DistF32, u8)>,
    k: nat,
    d: Binary32,
    label: u8,
    i: int,
    j: int,
)
    requires
        forall|i: int, j: int|
            0 <= i < j < s.len() ==> (#[trigger] s[i]).0.0.bits < (#[trigger] s[j]).0.0.bits || (
            s[i].0.0.bits == s[j].0.0.bits && s[i].1 <= s[j].1),
        forall|i: int| 0 <= i < s.len() ==> (#[trigger] s[i]).0.0.bits <= 0x5900_0000,
        d.bits <= 0x5900_0000,
    ensures
        ({
            let r = kept(s, k, d, label);
            &&& s.len() < k ==> r.to_multiset() == s.to_multiset().insert((DistF32(d), label))
            &&& s.len() >= k && s.len() > 0 && d.bits < s.last().0.0.bits ==> r.to_multiset()
                == s.drop_last().to_multiset().insert((DistF32(d), label))
            &&& s.len() >= k && (s.len() > 0 ==> d.bits >= s.last().0.0.bits) ==> r == s
            &&& 0 <= i < j < r.len() ==> r[i].0.0.bits < r[j].0.0.bits || (r[i].0.0.bits
                == r[j].0.0.bits && r[i].1 <= r[j].1)
        }),
{
    let e = (DistF32(d), label);
    let r = kept(s, k, d, label);
    lemma_in_order(s);
    if s.len() < k {
        lemma_push_dists(s, e);
    } else if s.len() > 0 {
        assert(is_dist(s[s.len() - 1].0.0));
        lemma_order_of_nonneg(d, s.last().0.0);
        if d.lt_spec(s.last().0.0) {
            let h = s.drop_last();
            assert forall|i: int, j: int| 0 <= i < j < h.len() implies (#[trigger] h[i]).0.0.bits
                < (#[trigger] h[j]).0.0.bits || (h[i].0.0.bits == h[j].0.0.bits && h[i].1
                <= h[j].1) by {
                assert(h[i] == s[i] && h[j] == s[j]);
            }
            assert forall|i: int| 0 <= i < h.len() implies (#[trigger] h[i]).0.0.bits
                <= 0x5900_0000 by {
                assert(h[i] == s[i]);
            }
            lemma_in_order(h);
            lemma_push_dists(h, e);
        }
    }
    if 0 <= i < j < r.len() {
        assert(!entry_lt(r[j], r[i]));
        assert(is_dist(r[i].0.0) && is_dist(r[j].0.0));
    }
}

proof fn lemma_in_order(s: Seq<(DistF32, u8)>)
    requires
        forall|i: int, j: int|
            0 <= i < j < s.len() ==> (#[trigger] s[i]).0.0.bits < (#[trigger] s[j]).0.0.bits || (
            s[i].0.0.bits == s[j].0.0.bits && s[i].1 <= s[j].1),
        forall|i: int| 0 <= i < s.len() ==> (#[trigger] s[i]).0.0.bits <= 0x5900_0000,
    ensures
        entries_sorted(s),
        crate::index::nearest::heap_dists(s),
{
    assert forall|i: int, j: int| 0 <= i < j < s.len() implies !entry_lt(
        #[trigger] s[j],
        #[trigger] s[i],
    ) by {
        assert(s[i].0.0.bits <= 0x5900_0000 && s[j].0.0.bits <= 0x5900_0000);
    }
}

/// Candidates are offered one after the other.
pub proof fn law_offers_come_one_by_one(
    s: Seq<(Binary32, u8)>,
    h: Seq<(DistF32, u8)>,
    k: nat,
    cands: Seq<(Binary32, u8)>,
    d: Binary32,
    label: u8,
)
    ensures
        offered_all(s, seq![]) == s,
        kept_all(h, k, seq![]) == h,
        offered_all(s, cands.push((d, label))) == offered(offered_all(s, cands), d, label),
        kept_all(h, k, cands.push((d, label))) == kept(kept_all(h, k, cands), k, d, label),
{
    assert(cands.push((d, label)).drop_last() =~= cands);
}

/// More than five results come of offering every slot to a heap, in the order of the file.
pub proof fn law_many_results_come_of_all_slots(fma: bool, l: IndexLayout, q: Seq<i16>, k: nat)
    requires
        k > 5,
    ensures
        l.knn(fma, q, k) == kept_all(seq![], k, l.slots(fma, q, l.cluster_sizes@.len())),
{
    law_scan_offers_every_slot(fma, l, q, seq![], k, l.cluster_sizes@.len());
}

/// A scan offers every slot of the first clusters to the heap that it is given, in the order of
/// the file.
pub proof fn law_scan_offers_every_slot(
    fma: bool,
    l: IndexLayout,
    q: Seq<i16>,
    s: Seq<(DistF32, u8)>,
    k: nat,
    n: nat,
)
    ensures
        l.scanned(fma, q, s, k, n) == kept_all(s, k, l.slots(fma, q, n)),
    decreases n,
{
    if n > 0 {
        law_scan_offers_every_slot(fma, l, q, s, k, (n - 1) as nat);
        lemma_kept_in_two(
            s,
            k,
            l.slots(fma, q, (n - 1) as nat),
            l.cluster_candidates(fma, q, n - 1),
        );
    }
}

proof fn lemma_kept_in_two(
    s: Seq<(DistF32, u8)>,
    k: nat,
    a: Seq<(Binary32, u8)>,
    b: Seq<(Binary32, u8)>,
)
    ensures
        kept_all(s, k, a + b) == kept_all(kept_all(s, k, a), k, b),
    decreases b.len(),
{
    if b.len() == 0 {
        assert(a + b =~= a);
    } else {
        lemma_kept_in_two(s, k, a, b.drop_last());
        assert((a + b).drop_last() =~= a + b.drop_last());
        assert((a + b).last() == b.last());
    }
}

/// The visits go on while there are fewer than five or the next bound is below the fifth
/// distance, and each offers the slots of its cluster; they end at the first bound that is not.
pub proof fn law_visits_end_at_the_fifth(
    fma: bool,
    l: IndexLayout,
    q: Seq<i16>,
    s: Seq<(Binary32, u8)>,
    visits: Seq<u64>,
    i: int,
)
    requires
        s.len() <= 5,
        forall|j: int| 0 <= j < s.len() ==> (#[trigger] s[j]).0.bits <= 0x5900_0000,
        0 <= i < visits.len(),
        visits[i] / 0x1_0000_0000 <= 0x5900_0000,
    ensures
        l.visited(fma, q, s, visits, visits.len() as int) == s,
        s.len() == 5 && visits[i] / 0x1_0000_0000 >= s[4].0.bits ==> l.visited(fma, q, s, visits, i)
            == s,
        s.len() < 5 || visits[i] / 0x1_0000_0000 < s[4].0.bits ==> l.visited(fma, q, s, visits, i)
            == l.visited(
            fma,
            q,
            offered_all(
                s,
                l.cluster_candidates(fma, q, (visits[i] % 0x1_0000_0000) as int),
            ),
            visits,
            i + 1,
        ),
{
    let bound = Binary32 { bits: (visits[i] / 0x1_0000_0000) as u32 };
    if s.len() == 5 {
        lemma_order_of_nonneg(bound, s[4].0);
    }
}

/// The search starts from nothing and with the first visit.
pub proof fn law_search_starts_from_nothing(fma: bool, l: IndexLayout, q: Seq<i16>)
    ensures
        l.nearest_five(fma, q) == l.visited(fma, q, seq![], l.visits(fma, q), 0),
{
}

// ── Any distances ────────────────────────────────────────────────────────────

/// Whatever the distances are, a candidate goes behind the last entry that it is not nearer than,
/// and everything behind it is farther. A full list gives up its last entry for a candidate that
/// is nearer than that, and else stays as it is.
pub proof fn law_candidate_goes_before_what_is_farther(
    s: Seq<(Binary32, u8)>,
    d: Binary32,
    label: u8,
    i: int,
) -> (at: int)
    requires
        s.len() <= 5,
    ensures
        ({
            let r = offered(s, d, label);
            let room = if s.len() < 5 {
                s
            } else {
                s.take(4)
            };
            &&& s.len() == 5 && !d.lt_spec(s[4].0) ==> r == s
            &&& s.len() < 5 || d.lt_spec(s[4].0) ==> {
                &&& 0 <= at <= room.len()
                &&& r == room.insert(at, (d, label))
                &&& at <= i < room.len() ==> d.lt_spec(room[i].0)
                &&& at > 0 ==> !d.lt_spec(room[at - 1].0)
            }
        }),
{
    let room = if s.len() < 5 {
        s
    } else {
        s.take(4)
    };
    lemma_place(room, d);
    insert_pos(room, d)
}

proof fn lemma_place(r: Seq<(Binary32, u8)>, d: Binary32)
    ensures
        0 <= insert_pos(r, d) <= r.len(),
        forall|i: int| insert_pos(r, d) <= i < r.len() ==> d.lt_spec((#[trigger] r[i]).0),
        insert_pos(r, d) > 0 ==> !d.lt_spec(r[insert_pos(r, d) - 1].0),
    decreases r.len(),
{
    if r.len() > 0 && d.lt_spec(r.last().0) {
        let h = r.drop_last();
        lemma_place(h, d);
        assert forall|i: int| insert_pos(r, d) <= i < r.len() implies d.lt_spec(
            (#[trigger] r[i]).0,
        ) by {
            if i < h.len() {
                assert(h[i] == r[i]);
            }
        }
    }
}

/// The distance to beat is that of the fifth entry, and the largest finite number while there
/// are fewer.
pub proof fn law_worst_is_the_fifth(top: Top5)
    ensures
        top@.len() < 5 ==> top.worst_spec().bits == 0x7F7F_FFFF,
        top@.len() >= 5 ==> top.worst_spec() == top@[4].0,
{
}

/// An entry is pushed behind the last that is not larger, by distance and then by label, and
/// everything behind it is larger.
pub proof fn law_push_goes_before_what_is_larger(
    s: Seq<(DistF32, u8)>,
    d: Binary32,
    label: u8,
) -> (at: int)
    requires
        !d.is_nan_spec(),
        forall|i: int| 0 <= i < s.len() ==> !(#[trigger] s[i]).0.0.is_nan_spec(),
    ensures
        0 <= at <= s.len(),
        pushed(s, (DistF32(d), label)) == s.insert(at, (DistF32(d), label)),
        forall|i: int|
            at <= i < s.len() ==> d.lt_spec((#[trigger] s[i]).0.0) || (!s[i].0.0.lt_spec(d)
                && label < s[i].1),
        at > 0 ==> s[at - 1].0.0.lt_spec(d) || (!d.lt_spec(s[at - 1].0.0) && label >= s[at - 1].1),
{
    let e = (DistF32(d), label);
    lemma_heap_place(s, e);
    heap_pos(s, e)
}

proof fn lemma_heap_place(s: Seq<(DistF32, u8)>, e: (DistF32, u8))
    requires
        !e.0.0.is_nan_spec(),
        forall|i: int| 0 <= i < s.len() ==> !(#[trigger] s[i]).0.0.is_nan_spec(),
    ensures
        0 <= heap_pos(s, e) <= s.len(),
        forall|i: int|
            heap_pos(s, e) <= i < s.len() ==> e.0.0.lt_spec((#[trigger] s[i]).0.0) || (
            !s[i].0.0.lt_spec(e.0.0) && e.1 < s[i].1),
        heap_pos(s, e) > 0 ==> s[heap_pos(s, e) - 1].0.0.lt_spec(e.0.0) || (!e.0.0.lt_spec(
            s[heap_pos(s, e) - 1].0.0,
        ) && e.1 >= s[heap_pos(s, e) - 1].1),
    decreases s.len(),
{
    if s.len() > 0 {
        assert(!s[s.len() - 1].0.0.is_nan_spec());
        if entry_lt(e, s.last()) {
            let h = s.drop_last();
            assert forall|i: int| 0 <= i < h.len() implies !(
            #[trigger] h[i]).0.0.is_nan_spec() by {
                assert(h[i] == s[i]);
            }
            lemma_heap_place(h, e);
            assert forall|i: int| heap_pos(s, e) <= i < s.len() implies e.0.0.lt_spec(
                (#[trigger] s[i]).0.0,
            ) || (!s[i].0.0.lt_spec(e.0.0) && e.1 < s[i].1) by {
                if i < h.len() {
                    assert(h[i] == s[i]);
                }
            }
        }
    }
}

/// A heap with room takes a candidate; a full one pushes it in place of its last entry if it is
/// nearer than that, and else stays as it is.
pub proof fn law_heap_takes_what_is_nearer(
    s: Seq<(DistF32, u8)>,
    k: nat,
    d: Binary32,
    label: u8,
)
    ensures
        s.len() < k ==> kept(s, k, d, label) == pushed(s, (DistF32(d), label)),
        s.len() >= k && s.len() > 0 && d.lt_spec(s.last().0.0) ==> kept(s, k, d, label) == pushed(
            s.drop_last(),
            (DistF32(d), label),
        ),
        s.len() >= k && (s.len() == 0 || !d.lt_spec(s.last().0.0)) ==> kept(s, k, d, label) == s,
{
}

/// Distances are compared as numbers: both zeros are equal, and what is not a number is neither
/// before nor behind anything, nor equal to it.
pub proof fn law_distances_compare_as_numbers(x: Binary32, y: Binary32)
    ensures
        dist_order(x, y) == core::cmp::Ordering::Less <==> x.lt_spec(y),
        dist_order(x, y) == core::cmp::Ordering::Greater <==> y.lt_spec(x),
        dist_order(x, y) == core::cmp::Ordering::Equal <==> !x.lt_spec(y) && !y.lt_spec(x),
        same_number(x, y) <==> x.bits % 0x8000_0000 <= 0x7F80_0000 && y.bits % 0x8000_0000
            <= 0x7F80_0000 && (x.bits == y.bits || (x.bits % 0x8000_0000 == 0 && y.bits
            % 0x8000_0000 == 0)),
{
}

/// The candidates of some blocks are the slots that have a label, in order: each the distance to
/// its vector and its label.
pub proof fn law_candidates_are_labelled_slots(
    fma: bool,
    q: Seq<i16>,
    blocks: Seq<VectorBlock>,
    labels: Seq<u8>,
    i: int,
)
    ensures
        8 * blocks.len() <= labels.len() ==> candidates(fma, q, blocks, labels).len() == 8
            * blocks.len(),
        8 * blocks.len() >= labels.len() ==> candidates(fma, q, blocks, labels).len()
            == labels.len(),
        0 <= i < candidates(fma, q, blocks, labels).len() ==> candidates(fma, q, blocks, labels)[i]
            == (
            vector_dist(fma, q, Seq::new(14, |d: int| blocks[i / 8].data@[8 * d + i % 8])),
            labels[i],
        ),
{
    if 0 <= i < candidates(fma, q, blocks, labels).len() {
        assert(block_vector(blocks[i / 8], i % 8) =~= Seq::new(
            14,
            |d: int| blocks[i / 8].data@[8 * d + i % 8],
        ));
    }
}

/// The first eight dimensions of the vector in a slot.
pub open spec fn first_eight(block: VectorBlock, slot: int) -> Seq<i16> {
    Seq::new(8, |d: int| block.data@[8 * d + slot])
}

/// A block is far if each of its vectors is farther than the threshold over the first eight
/// dimensions alone.
pub proof fn law_far_blocks_are_far_in_eight_dimensions(
    fma: bool,
    q: Seq<i16>,
    block: VectorBlock,
    threshold: Binary32,
)
    ensures
        all_far(fma, q, block, threshold) <==> forall|slot: int|
            0 <= slot < 8 ==> threshold.lt_spec(
                vector_dist(fma, q, #[trigger] first_eight(block, slot)),
            ),
{
    assert forall|slot: int| 0 <= slot < 8 implies #[trigger] partial_dist(fma, q, block, slot, 8)
        == vector_dist(fma, q, first_eight(block, slot)) by {
        assert(diff_terms(q, block_vector(block, slot)).take(8) =~= diff_terms(
            q,
            first_eight(block, slot),
        ));
    }
    if all_far(fma, q, block, threshold) {
        assert forall|slot: int| 0 <= slot < 8 implies threshold.lt_spec(
            vector_dist(fma, q, #[trigger] first_eight(block, slot)),
        ) by {
            assert(threshold.lt_spec(partial_dist(fma, q, block, slot, 8)));
        }
    } else {
        let slot = choose|slot: int|
            0 <= slot < 8 && !threshold.lt_spec(
                #[trigger] partial_dist(fma, q, block, slot, 8),
            );
        assert(!threshold.lt_spec(vector_dist(fma, q, first_eight(block, slot))));
    }
}

/// A visit is made unless its bound is a number that is not below the distance to beat.
pub proof fn law_visit_is_made_below_the_worst(
    fma: bool,
    l: IndexLayout,
    q: Seq<i16>,
    s: Seq<(Binary32, u8)>,
    visits: Seq<u64>,
    i: int,
)
    requires
        0 <= i < visits.len(),
    ensures
        ({
            let bound = Binary32 { bits: (visits[i] / 0x1_0000_0000) as u32 };
            let worst = if s.len() < 5 {
                Binary32 { bits: 0x7F7F_FFFF }
            } else {
                s[4].0
            };
            let stops = worst.bits % 0x8000_0000 <= 0x7F80_0000 && !bound.lt_spec(worst);
            &&& stops ==> l.visited(fma, q, s, visits, i) == s
            &&& !stops ==> l.visited(fma, q, s, visits, i) == l.visited(
                fma,
                q,
                offered_all(
                    s,
                    l.cluster_candidates(fma, q, (visits[i] % 0x1_0000_0000) as int),
                ),
                visits,
                i + 1,
            )
        }),
{
}

/// The slots of a cluster are those from where it starts to where the next one does.
pub proof fn law_cluster_offers_its_slots(
    fma: bool,
    l: IndexLayout,
    q: Seq<i16>,
    ci: nat,
    j: int,
)
    requires
        l.consistent(),
        ci < l.cluster_sizes@.len(),
        8 * block_offset(l.cluster_sizes@, ci) <= j < 8 * block_offset(l.cluster_sizes@, ci + 1),
    ensures
        l.cluster_candidates(fma, q, ci as int).len() == 8 * (l.cluster_sizes@[ci as int] / 8),
        l.cluster_candidates(fma, q, ci as int)[j - 8 * block_offset(l.cluster_sizes@, ci)]
            == l.slots(fma, q, l.cluster_sizes@.len())[j],
{
    let n = l.cluster_sizes@.len();
    let cands = l.cluster_candidates(fma, q, ci as int);
    law_offsets_ascend(l.cluster_sizes@, ci + 1, n);
    let (bs, be) = (l.cluster_start(ci as int), l.cluster_start(ci as int + 1));
    let at = j - 8 * bs;
    assert(cands.len() == 8 * (be - bs));
    law_slots_are_vectors_and_labels(fma, l, q, j);
    assert(at / 8 == j / 8 - bs && at % 8 == j % 8);
    assert(l.blocks@.subrange(bs as int, be as int)[at / 8] == l.blocks@[j / 8]);
    assert(l.labels@.subrange(8 * bs as int, 8 * be as int)[at] == l.labels@[j]);
    assert(block_vector(l.blocks@[j / 8], j % 8) =~= Seq::new(
        14,
        |d: int| l.blocks@[j / 8].data@[8 * d + j % 8],
    ));
}

} // verus!
