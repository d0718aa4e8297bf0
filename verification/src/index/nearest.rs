//! What the search finds: the five nearest, in spite of the pruning.

use vstd::prelude::*;
use vstd::multiset::Multiset;

use crate::binary32::Binary32;
#[allow(unused_imports)]
use crate::binary32::{fifth_bits, lemma_fifth};
#[allow(unused_imports)]
use crate::index::bbox::{
    in_box, law_lower_bound, law_lower_bound_in_range, padded_lanes, zero_padded,
};
#[allow(unused_imports)]
use crate::index::distance::{is_dist, lemma_order_of_nonneg, max_dist};
use crate::index::layout::IndexLayout;
#[allow(unused_imports)]
use crate::index::search::{
    candidates, entries_are_numbers, entries_sorted, entry_lt, frauds, heap_pos, insert_pos, kept,
    kept_all, law_push_keeps_order, lemma_frauds_bound, offered, offered_all, pushed, DistF32,
};
#[allow(unused_imports)]
use crate::index::simd::{block_vector, law_slot_dist_in_range, slot_dist};
#[allow(unused_imports)]
use crate::index::{
    ascending, cannot_improve, law_offsets_ascend, lemma_key_parts, visit_key, MAX_NLIST,
};

verus! {

/// Every distance is finite and not negative.
pub open spec fn all_dists(s: Seq<(Binary32, u8)>) -> bool {
    forall|i: int| 0 <= i < s.len() ==> is_dist((#[trigger] s[i]).0)
}

/// Nearest first.
pub open spec fn by_distance(s: Seq<(Binary32, u8)>) -> bool {
    forall|i: int, j: int|
        0 <= i <= j < s.len() ==> (#[trigger] s[i]).0.bits <= (#[trigger] s[j]).0.bits
}

/// The entries are the five nearest of all: they are in order, and what is left out is not
/// nearer than the fifth.
pub open spec fn five_nearest(s: Seq<(Binary32, u8)>, all: Multiset<(Binary32, u8)>) -> bool {
    &&& s.len() <= 5
    &&& by_distance(s)
    &&& s.to_multiset().subset_of(all)
    &&& forall|e: (Binary32, u8)|
        #[trigger] all.sub(s.to_multiset()).count(e) > 0 ==> s.len() == 5 && s[4].0.bits <= e.0.bits
}

pub proof fn lemma_insert_pos_order(s: Seq<(Binary32, u8)>, d: Binary32)
    requires
        by_distance(s),
        all_dists(s),
        is_dist(d),
    ensures
        0 <= insert_pos(s, d) <= s.len(),
        forall|i: int| 0 <= i < insert_pos(s, d) ==> (#[trigger] s[i]).0.bits <= d.bits,
        forall|i: int| insert_pos(s, d) <= i < s.len() ==> d.bits < (#[trigger] s[i]).0.bits,
    decreases s.len(),
{
    if s.len() > 0 {
        let last = s.last();
        assert(last == s[s.len() - 1]);
        lemma_order_of_nonneg(d, last.0);
        if d.lt_spec(last.0) {
            let h = s.drop_last();
            assert(by_distance(h)) by {
                assert forall|i: int, j: int| 0 <= i <= j < h.len() implies (#[trigger] h[i]).0.bits
                    <= (#[trigger] h[j]).0.bits by {
                    assert(s[i].0.bits <= s[j].0.bits);
                }
            }
            assert(all_dists(h)) by {
                assert forall|i: int| 0 <= i < h.len() implies is_dist((#[trigger] h[i]).0) by {
                    assert(is_dist(s[i].0));
                }
            }
            lemma_insert_pos_order(h, d);
            assert forall|i: int| 0 <= i < insert_pos(s, d) implies (#[trigger] s[i]).0.bits
                <= d.bits by {
                assert(h[i] == s[i]);
            }
            assert forall|i: int| insert_pos(s, d) <= i < s.len() implies d.bits < (
            #[trigger] s[i]).0.bits by {
                if i < h.len() {
                    assert(h[i] == s[i]);
                }
            }
        } else {
            assert forall|i: int| 0 <= i < s.len() implies (#[trigger] s[i]).0.bits <= d.bits by {
                assert(s[i].0.bits <= s[s.len() - 1].0.bits);
            }
        }
    }
}

proof fn lemma_insert_in_order(s: Seq<(Binary32, u8)>, d: Binary32, label: u8)
    requires
        by_distance(s),
        all_dists(s),
        is_dist(d),
    ensures
        ({
            let r = s.insert(insert_pos(s, d), (d, label));
            &&& by_distance(r)
            &&& all_dists(r)
            &&& r.len() == s.len() + 1
            &&& r.to_multiset() == s.to_multiset().insert((d, label))
        }),
{
    lemma_insert_pos_order(s, d);
    let p = insert_pos(s, d);
    let r = s.insert(p, (d, label));
    assert forall|i: int, j: int| 0 <= i <= j < r.len() implies (#[trigger] r[i]).0.bits <= (
    #[trigger] r[j]).0.bits by {
        let si = if i < p {
            s[i]
        } else {
            s[i - 1]
        };
        let sj = if j < p {
            s[j]
        } else {
            s[j - 1]
        };
    }
    assert forall|i: int| 0 <= i < r.len() implies is_dist((#[trigger] r[i]).0) by {
        let si = if i < p {
            s[i]
        } else {
            s[i - 1]
        };
    }
    broadcast use vstd::seq_lib::group_to_multiset_ensures;

}

/// Offering one more candidate to the five nearest gives the five nearest of one more.
pub proof fn law_offer_keeps_nearest(
    s: Seq<(Binary32, u8)>,
    all: Multiset<(Binary32, u8)>,
    d: Binary32,
    label: u8,
)
    requires
        five_nearest(s, all),
        all_dists(s),
        is_dist(d),
    ensures
        five_nearest(offered(s, d, label), all.insert((d, label))),
        all_dists(offered(s, d, label)),
{
    broadcast use vstd::seq_lib::group_to_multiset_ensures;
    broadcast use vstd::multiset::group_multiset_axioms;

    let r = offered(s, d, label);
    let more = all.insert((d, label));
    if s.len() < 5 {
        lemma_insert_in_order(s, d, label);
        assert forall|e: (Binary32, u8)| #[trigger] more.sub(r.to_multiset()).count(e) > 0 implies r.len() == 5
            && r[4].0.bits <= e.0.bits by {
            assert(all.sub(s.to_multiset()).count(e) > 0);
        }
    } else {
        let worst = s[4];
        assert(is_dist(s[4].0));
        lemma_order_of_nonneg(d, worst.0);
        if d.lt_spec(worst.0) {
            let h = s.take(4);
            assert(by_distance(h)) by {
                assert forall|i: int, j: int| 0 <= i <= j < h.len() implies (#[trigger] h[i]).0.bits
                    <= (#[trigger] h[j]).0.bits by {
                    assert(s[i].0.bits <= s[j].0.bits);
                }
            }
            assert(all_dists(h)) by {
                assert forall|i: int| 0 <= i < h.len() implies is_dist((#[trigger] h[i]).0) by {
                    assert(is_dist(s[i].0));
                }
            }
            lemma_insert_in_order(h, d, label);
            assert(s =~= h.push(worst));
            assert(s.to_multiset() == h.to_multiset().insert(worst));
            lemma_insert_pos_order(h, d);
            // The last of the new five is the new one or the fourth of before.
            assert(r[4].0.bits <= worst.0.bits) by {
                let p = insert_pos(h, d);
                if p < 4 {
                    assert(r[4] == h[3]);
                    assert(s[3].0.bits <= s[4].0.bits);
                } else {
                    assert(r[4] == (d, label));
                }
            }
            assert forall|e: (Binary32, u8)|
                #[trigger] more.sub(r.to_multiset()).count(e) > 0 implies r.len() == 5 && r[4].0.bits <= e.0.bits by {
                if e != worst {
                    assert(all.sub(s.to_multiset()).count(e) > 0);
                }
            }
        } else {
            assert forall|e: (Binary32, u8)|
                #[trigger] more.sub(r.to_multiset()).count(e) > 0 implies r.len() == 5 && r[4].0.bits <= e.0.bits by {
                if e != (d, label) {
                    assert(all.sub(s.to_multiset()).count(e) > 0);
                }
            }
        }
    }
}

/// Offering candidates one by one gives the five nearest of them all.
pub proof fn law_offers_find_nearest(
    s: Seq<(Binary32, u8)>,
    all: Multiset<(Binary32, u8)>,
    cands: Seq<(Binary32, u8)>,
)
    requires
        five_nearest(s, all),
        all_dists(s),
        all_dists(cands),
    ensures
        five_nearest(offered_all(s, cands), all.add(cands.to_multiset())),
        all_dists(offered_all(s, cands)),
    decreases cands.len(),
{
    broadcast use vstd::seq_lib::group_to_multiset_ensures;
    broadcast use vstd::multiset::group_multiset_axioms;

    if cands.len() == 0 {
        assert(all.add(cands.to_multiset()) =~= all);
    } else {
        let h = cands.drop_last();
        let last = cands.last();
        assert(all_dists(h)) by {
            assert forall|i: int| 0 <= i < h.len() implies is_dist((#[trigger] h[i]).0) by {
                assert(is_dist(cands[i].0));
            }
        }
        assert(is_dist(cands[cands.len() - 1].0));
        law_offers_find_nearest(s, all, h);
        assert(cands =~= h.push(last));
        assert(all.add(cands.to_multiset()) =~= all.add(h.to_multiset()).insert(last));
        law_offer_keeps_nearest(
            offered_all(s, h),
            all.add(h.to_multiset()),
            last.0,
            last.1,
        );
    }
}

// ── Pruning ──────────────────────────────────────────────────────────────────

impl IndexLayout {
    /// The sections fit together.
    pub open spec fn consistent(&self) -> bool {
        &&& self.lengths_match()
        &&& self.header.nlist <= MAX_NLIST
        &&& self.clusters_fit()
    }

    /// A vector lies within the bounds of its cluster.
    pub open spec fn slot_covered(&self, ci: int, block: int, slot: int) -> bool {
        &&& in_box(
            block_vector(self.blocks@[block], slot),
            self.bbox_mins@[ci],
            self.bbox_maxes@[ci],
        )
        &&& zero_padded(self.bbox_mins@[ci], self.bbox_maxes@[ci])
    }

    /// Every vector lies within the bounds of its cluster.
    pub open spec fn covered(&self) -> bool {
        forall|ci: int, block: int, slot: int|
            0 <= ci < self.cluster_sizes@.len() && self.cluster_start(ci) <= block
                < self.cluster_start(ci + 1) && 0 <= slot < 8 ==> #[trigger] self.slot_covered(
                ci,
                block,
                slot,
            )
    }

    /// The distance and label of every slot of the first `n` clusters.
    pub open spec fn all_candidates(&self, fma: bool, query: Seq<i16>, n: nat) -> Multiset<
        (Binary32, u8),
    >
        decreases n,
    {
        if n == 0 {
            Multiset::empty()
        } else {
            self.all_candidates(fma, query, (n - 1) as nat).add(
                self.cluster_candidates(fma, query, n - 1).to_multiset(),
            )
        }
    }

    /// Adds the candidates of the cluster that a visit names.
    spec fn adding(&self, fma: bool, query: Seq<i16>) -> spec_fn(
        u64,
        Multiset<(Binary32, u8)>,
    ) -> Multiset<(Binary32, u8)> {
        |key: u64, acc: Multiset<(Binary32, u8)>|
            acc.add(self.cluster_candidates(fma, query, key as int % 0x1_0000_0000).to_multiset())
    }

    /// The candidates of the visits from `i` on.
    spec fn remaining(&self, fma: bool, query: Seq<i16>, visits: Seq<u64>, i: int) -> Multiset<
        (Binary32, u8),
    >
        decreases visits.len() - i,
    {
        if i < 0 || i >= visits.len() {
            Multiset::empty()
        } else {
            self.remaining(fma, query, visits, i + 1).add(
                self.cluster_candidates(fma, query, visits[i] as int % 0x1_0000_0000).to_multiset(),
            )
        }
    }

    /// The clusters with their lower bounds, in the order of the file.
    spec fn keys(&self, fma: bool, query: Seq<i16>) -> Seq<u64> {
        Seq::new(
            self.bbox_mins@.len(),
            |ci: int| visit_key(self.cluster_bound(fma, query, ci), ci),
        )
    }
}

/// Each cluster is visited once, in the order of the bounds, and clusters at the same bound in
/// the order of the file: a visit is the bits of the bound and the number of the cluster.
pub proof fn law_clusters_are_visited_by_bound(fma: bool, l: IndexLayout, q: Seq<i16>)
    requires
        l.consistent(),
    ensures
        l.visits(fma, q).len() == l.cluster_sizes@.len(),
        l.visits(fma, q).to_multiset() == Seq::new(
            l.cluster_sizes@.len(),
            |ci: int|
                (l.cluster_bound(fma, q, ci).bits * 0x1_0000_0000 + ci) as u64,
        ).to_multiset(),
        forall|i: int, j: int|
            0 <= i <= j < l.visits(fma, q).len() ==> (#[trigger] l.visits(fma, q)[i]) <= (
            #[trigger] l.visits(fma, q)[j]),
{
    lemma_visits(fma, l, q);
    assert(l.keys(fma, q) =~= Seq::new(
        l.cluster_sizes@.len(),
        |ci: int| (l.cluster_bound(fma, q, ci).bits * 0x1_0000_0000 + ci) as u64,
    ));
}

/// The visits name each cluster with its bound, in ascending order.
proof fn lemma_visits(fma: bool, l: IndexLayout, q: Seq<i16>)
    requires
        l.consistent(),
    ensures
        l.visits(fma, q).to_multiset() == l.keys(fma, q).to_multiset(),
        l.visits(fma, q).len() == l.bbox_mins@.len(),
        forall|i: int, j: int|
            0 <= i <= j < l.visits(fma, q).len() ==> (#[trigger] l.visits(fma, q)[i]) <= (
            #[trigger] l.visits(fma, q)[j]),
        forall|i: int|
            0 <= i < l.visits(fma, q).len() ==> ({
                let key = #[trigger] l.visits(fma, q)[i];
                let ci = key as int % 0x1_0000_0000;
                &&& 0 <= ci < l.bbox_mins@.len()
                &&& key as int / 0x1_0000_0000 == l.cluster_bound(fma, q, ci).bits
            }),
{
    let keys = l.keys(fma, q);
    let visits = l.visits(fma, q);
    assert(keys =~= Seq::new(
        l.bbox_mins@.len(),
        |ci: int| visit_key(l.cluster_bound(fma, q, ci), ci),
    ));
    let leq = ascending();
    assert(vstd::relations::total_ordering(leq));
    keys.lemma_sort_by_ensures(leq);
    broadcast use vstd::seq_lib::group_to_multiset_ensures;

    assert(visits.len() == visits.to_multiset().len());
    assert(keys.len() == keys.to_multiset().len());
    assert forall|i: int, j: int| 0 <= i <= j < visits.len() implies (#[trigger] visits[i]) <= (
    #[trigger] visits[j]) by {
        if i < j {
            assert(leq(visits[i], visits[j]));
        }
    }
    assert forall|i: int| 0 <= i < visits.len() implies ({
        let key = #[trigger] visits[i];
        let ci = key as int % 0x1_0000_0000;
        &&& 0 <= ci < l.bbox_mins@.len()
        &&& key as int / 0x1_0000_0000 == l.cluster_bound(fma, q, ci).bits
    }) by {
        assert(visits.contains(visits[i]));
        assert(keys.contains(visits[i]));
        let ci = choose|ci: int| 0 <= ci < keys.len() && keys[ci] == visits[i];
        lemma_key_parts(l.cluster_bound(fma, q, ci), ci);
    }
}

/// The candidates of all visits are those of all clusters.
proof fn lemma_remaining_is_all(fma: bool, l: IndexLayout, q: Seq<i16>)
    requires
        l.consistent(),
    ensures
        l.remaining(fma, q, l.visits(fma, q), 0) == l.all_candidates(fma, q, l.bbox_mins@.len()),
{
    let visits = l.visits(fma, q);
    let keys = l.keys(fma, q);
    let f = l.adding(fma, q);
    let none = Multiset::<(Binary32, u8)>::empty();
    lemma_visits(fma, l, q);
    assert(vstd::seq_lib::commutative_foldr(f)) by {
        assert forall|x: u64, y: u64, v: Multiset<(Binary32, u8)>| #[trigger]
            f(x, f(y, v)) == f(y, f(x, v)) by {
            assert(f(x, f(y, v)) =~= f(y, f(x, v)));
        }
    }
    vstd::seq_lib::lemma_fold_right_permutation(visits, keys, f, none);
    lemma_remaining_fold(fma, l, q, visits, 0);
    assert(visits.subrange(0, visits.len() as int) =~= visits);
    visits.lemma_fold_right_alt(f, none);
    lemma_keys_fold(fma, l, q, keys.len(), none);
    assert(keys.take(keys.len() as int) =~= keys);
    assert(none.add(l.all_candidates(fma, q, keys.len())) =~= l.all_candidates(fma, q, keys.len()));
}

proof fn lemma_remaining_fold(fma: bool, l: IndexLayout, q: Seq<i16>, visits: Seq<u64>, i: int)
    requires
        0 <= i <= visits.len(),
    ensures
        l.remaining(fma, q, visits, i) == visits.subrange(i, visits.len() as int).fold_right_alt(
            l.adding(fma, q),
            Multiset::empty(),
        ),
    decreases visits.len() - i,
{
    let f = l.adding(fma, q);
    let rest = visits.subrange(i, visits.len() as int);
    reveal_with_fuel(Seq::fold_right_alt, 2);
    if i < visits.len() {
        lemma_remaining_fold(fma, l, q, visits, i + 1);
        assert(rest.subrange(1, rest.len() as int) =~= visits.subrange(
            i + 1,
            visits.len() as int,
        ));
        assert(rest[0] == visits[i]);
    }
}

proof fn lemma_keys_fold(
    fma: bool,
    l: IndexLayout,
    q: Seq<i16>,
    n: nat,
    b: Multiset<(Binary32, u8)>,
)
    requires
        l.consistent(),
        n <= l.keys(fma, q).len(),
    ensures
        l.keys(fma, q).take(n as int).fold_right(l.adding(fma, q), b) == b.add(
            l.all_candidates(fma, q, n),
        ),
    decreases n,
{
    let f = l.adding(fma, q);
    let part = l.keys(fma, q).take(n as int);
    reveal_with_fuel(Seq::fold_right, 2);
    if n == 0 {
        assert(b.add(l.all_candidates(fma, q, n)) =~= b);
    } else {
        let ci = n - 1;
        lemma_key_parts(l.cluster_bound(fma, q, ci), ci);
        assert(part.drop_last() =~= l.keys(fma, q).take(ci));
        lemma_keys_fold(fma, l, q, ci as nat, f(part.last(), b));
        assert(f(part.last(), b).add(l.all_candidates(fma, q, ci as nat)) =~= b.add(
            l.all_candidates(fma, q, n),
        ));
    }
}

/// Candidates of a cluster have distances.
pub proof fn lemma_cluster_dists(fma: bool, l: IndexLayout, q: Seq<i16>, ci: int)
    ensures
        all_dists(l.cluster_candidates(fma, q, ci)),
{
    let cands = l.cluster_candidates(fma, q, ci);
    let (bs, be) = (l.cluster_start(ci), l.cluster_start(ci + 1));
    let blocks = l.blocks@.subrange(bs as int, be as int);
    assert forall|i: int| 0 <= i < cands.len() implies is_dist((#[trigger] cands[i]).0) by {
        law_slot_dist_in_range(fma, q, blocks[i / 8], i % 8);
    }
}

/// No covered vector of a cluster is nearer than the bound of the cluster.
pub proof fn law_bound_holds_for_slot(
    fma: bool,
    l: IndexLayout,
    q: Seq<i16>,
    ci: int,
    block: int,
    slot: int,
)
    requires
        q.len() == 14,
        l.slot_covered(ci, block, slot),
    ensures
        l.cluster_bound(fma, q, ci).bits <= slot_dist(fma, q, l.blocks@[block], slot).bits,
{
    law_lower_bound(
        fma,
        q,
        block_vector(l.blocks@[block], slot),
        l.bbox_mins@[ci],
        l.bbox_maxes@[ci],
    );
}

proof fn lemma_cluster_far(fma: bool, l: IndexLayout, q: Seq<i16>, ci: int)
    requires
        q.len() == 14,
        l.consistent(),
        l.covered(),
        0 <= ci < l.cluster_sizes@.len(),
    ensures
        forall|i: int|
            0 <= i < l.cluster_candidates(fma, q, ci).len() ==> l.cluster_bound(fma, q, ci).bits
                <= (#[trigger] l.cluster_candidates(fma, q, ci)[i]).0.bits,
{
    let cands = l.cluster_candidates(fma, q, ci);
    let (bs, be) = (l.cluster_start(ci), l.cluster_start(ci + 1));
    law_offsets_ascend(l.cluster_sizes@, ci as nat, (ci + 1) as nat);
    law_offsets_ascend(l.cluster_sizes@, (ci + 1) as nat, l.cluster_sizes@.len());
    let blocks = l.blocks@.subrange(bs as int, be as int);
    assert forall|i: int| 0 <= i < cands.len() implies l.cluster_bound(fma, q, ci).bits <= (
    #[trigger] cands[i]).0.bits by {
        let block = bs + i / 8;
        assert(i / 8 < blocks.len());
        assert(blocks[i / 8] == l.blocks@[block]);
        assert(l.slot_covered(ci, block, i % 8));
        law_bound_holds_for_slot(fma, l, q, ci, block, i % 8);
    }
}

/// What remains after a bound is not nearer than the bound.
proof fn lemma_remaining_far(fma: bool, l: IndexLayout, q: Seq<i16>, i: int, w: u32)
    requires
        q.len() == 14,
        l.consistent(),
        l.covered(),
        0 <= i <= l.visits(fma, q).len(),
        i < l.visits(fma, q).len() ==> w <= l.visits(fma, q)[i] as int / 0x1_0000_0000,
    ensures
        forall|e: (Binary32, u8)|
            #[trigger] l.remaining(fma, q, l.visits(fma, q), i).count(e) > 0 ==> w <= e.0.bits,
    decreases l.visits(fma, q).len() - i,
{
    broadcast use vstd::seq_lib::group_to_multiset_ensures;
    broadcast use vstd::multiset::group_multiset_axioms;

    let visits = l.visits(fma, q);
    if i < visits.len() {
        lemma_visits(fma, l, q);
        if i + 1 < visits.len() {
            assert(visits[i] <= visits[i + 1]);
        }
        lemma_remaining_far(fma, l, q, i + 1, w);
        let ci = visits[i] as int % 0x1_0000_0000;
        lemma_cluster_far(fma, l, q, ci);
        let cands = l.cluster_candidates(fma, q, ci);
        assert forall|e: (Binary32, u8)|
            #[trigger] l.remaining(fma, q, visits, i).count(e) > 0 implies w <= e.0.bits by {
            if cands.to_multiset().count(e) > 0 {
                assert(cands.contains(e));
                let k = choose|k: int| 0 <= k < cands.len() && cands[k] == e;
                assert(l.cluster_bound(fma, q, ci).bits <= cands[k].0.bits);
            } else {
                assert(l.remaining(fma, q, visits, i + 1).count(e) > 0);
            }
        }
    }
}

proof fn lemma_visited_nearest(
    fma: bool,
    l: IndexLayout,
    q: Seq<i16>,
    s: Seq<(Binary32, u8)>,
    done: Multiset<(Binary32, u8)>,
    i: int,
)
    requires
        q.len() == 14,
        l.consistent(),
        l.covered(),
        0 <= i <= l.visits(fma, q).len(),
        five_nearest(s, done),
        all_dists(s),
    ensures
        five_nearest(
            l.visited(fma, q, s, l.visits(fma, q), i),
            done.add(l.remaining(fma, q, l.visits(fma, q), i)),
        ),
    decreases l.visits(fma, q).len() - i,
{
    broadcast use vstd::multiset::group_multiset_axioms;

    let visits = l.visits(fma, q);
    let rest = l.remaining(fma, q, visits, i);
    if i == visits.len() {
        assert(done.add(rest) =~= done);
    } else {
        lemma_visits(fma, l, q);
        let ci = visits[i] as int % 0x1_0000_0000;
        let bound = Binary32 { bits: (visits[i] / 0x1_0000_0000) as u32 };
        assert(bound == l.cluster_bound(fma, q, ci));
        law_lower_bound_in_range(fma, padded_lanes(q), l.bbox_mins@[ci], l.bbox_maxes@[ci]);
        if cannot_improve(bound, s) {
            lemma_order_of_nonneg(bound, max_dist());
            assert(s.len() == 5);
            assert(is_dist(s[4].0));
            lemma_order_of_nonneg(bound, s[4].0);
            lemma_remaining_far(fma, l, q, i, s[4].0.bits);
            assert(s.to_multiset().subset_of(done.add(rest)));
            assert forall|e: (Binary32, u8)|
                #[trigger] done.add(rest).sub(s.to_multiset()).count(e) > 0 implies s[4].0.bits
                <= e.0.bits by {
                if rest.count(e) == 0 {
                    assert(done.sub(s.to_multiset()).count(e) > 0);
                }
            }
        } else {
            let cands = l.cluster_candidates(fma, q, ci);
            lemma_cluster_dists(fma, l, q, ci);
            law_offers_find_nearest(s, done, cands);
            lemma_visited_nearest(
                fma,
                l,
                q,
                offered_all(s, cands),
                done.add(cands.to_multiset()),
                i + 1,
            );
            assert(done.add(rest) =~= done.add(cands.to_multiset()).add(
                l.remaining(fma, q, visits, i + 1),
            ));
        }
    }
}

/// The pruned search finds the five nearest of all vectors of the index, if the bounds of each
/// cluster cover its vectors.
pub proof fn law_pruned_search_is_exact(fma: bool, l: IndexLayout, q: Seq<i16>)
    requires
        q.len() == 14,
        l.consistent(),
        l.covered(),
    ensures
        five_nearest(l.nearest_five(fma, q), l.all_candidates(fma, q, l.cluster_sizes@.len())),
{
    broadcast use vstd::seq_lib::group_to_multiset_ensures;
    broadcast use vstd::multiset::group_multiset_axioms;

    let none = Multiset::<(Binary32, u8)>::empty();
    let start = Seq::<(Binary32, u8)>::empty();
    assert(five_nearest(start, none)) by {
        assert(start.to_multiset() =~= none);
    }
    lemma_visits(fma, l, q);
    lemma_visited_nearest(fma, l, q, start, none, 0);
    lemma_remaining_is_all(fma, l, q);
    let whole = l.remaining(fma, q, l.visits(fma, q), 0);
    assert(none.add(whole) =~= whole);
}

// ── Where the visits end ─────────────────────────────────────────────────────

impl IndexLayout {
    /// The visit at which the search ends, from visit `i` on.
    pub open spec fn stops_at(
        &self,
        fma: bool,
        query: Seq<i16>,
        s: Seq<(Binary32, u8)>,
        visits: Seq<u64>,
        i: int,
    ) -> int
        decreases visits.len() - i,
    {
        if i < 0 || i >= visits.len() {
            visits.len() as int
        } else if cannot_improve(Binary32 { bits: (visits[i] / 0x1_0000_0000) as u32 }, s) {
            i
        } else {
            self.stops_at(
                fma,
                query,
                offered_all(
                    s,
                    self.cluster_candidates(fma, query, (visits[i] % 0x1_0000_0000) as int),
                ),
                visits,
                i + 1,
            )
        }
    }

    /// The candidates of the first `n` visits.
    pub open spec fn seen(&self, fma: bool, query: Seq<i16>, visits: Seq<u64>, n: nat) -> Multiset<
        (Binary32, u8),
    >
        decreases n,
    {
        if n == 0 {
            Multiset::empty()
        } else {
            self.seen(fma, query, visits, (n - 1) as nat).add(
                self.cluster_candidates(
                    fma,
                    query,
                    (visits[n - 1] % 0x1_0000_0000) as int,
                ).to_multiset(),
            )
        }
    }
}

pub proof fn lemma_visited_seen(fma: bool, l: IndexLayout, q: Seq<i16>, s: Seq<(Binary32, u8)>, i: int)
    requires
        l.consistent(),
        0 <= i <= l.visits(fma, q).len(),
        five_nearest(s, l.seen(fma, q, l.visits(fma, q), i as nat)),
        all_dists(s),
    ensures
        ({
            let visits = l.visits(fma, q);
            let m = l.stops_at(fma, q, s, visits, i);
            let r = l.visited(fma, q, s, visits, i);
            &&& i <= m <= visits.len()
            &&& five_nearest(r, l.seen(fma, q, visits, m as nat))
            &&& all_dists(r)
            &&& m < visits.len() ==> cannot_improve(
                Binary32 { bits: (visits[m] / 0x1_0000_0000) as u32 },
                r,
            )
        }),
    decreases l.visits(fma, q).len() - i,
{
    let visits = l.visits(fma, q);
    if i < visits.len() {
        let bound = Binary32 { bits: (visits[i] / 0x1_0000_0000) as u32 };
        if !cannot_improve(bound, s) {
            let ci = (visits[i] % 0x1_0000_0000) as int;
            let cands = l.cluster_candidates(fma, q, ci);
            lemma_cluster_dists(fma, l, q, ci);
            law_offers_find_nearest(s, l.seen(fma, q, visits, i as nat), cands);
            lemma_visited_seen(fma, l, q, offered_all(s, cands), i + 1);
        }
    }
}

/// What the visits have seen is among the candidates of all clusters.
pub proof fn lemma_seen_is_stored(fma: bool, l: IndexLayout, q: Seq<i16>, n: nat)
    requires
        l.consistent(),
        n <= l.visits(fma, q).len(),
    ensures
        l.seen(fma, q, l.visits(fma, q), n).subset_of(
            l.all_candidates(fma, q, l.cluster_sizes@.len()),
        ),
{
    lemma_remaining_is_all(fma, l, q);
    lemma_seen_and_remaining(fma, l, q, l.visits(fma, q), n);
}

proof fn lemma_seen_and_remaining(
    fma: bool,
    l: IndexLayout,
    q: Seq<i16>,
    visits: Seq<u64>,
    n: nat,
)
    requires
        n <= visits.len(),
    ensures
        l.seen(fma, q, visits, n).add(l.remaining(fma, q, visits, n as int)) == l.remaining(
            fma,
            q,
            visits,
            0,
        ),
    decreases n,
{
    broadcast use vstd::multiset::group_multiset_axioms;

    if n > 0 {
        lemma_seen_and_remaining(fma, l, q, visits, (n - 1) as nat);
    }
    assert(l.seen(fma, q, visits, n).add(l.remaining(fma, q, visits, n as int)) =~= l.remaining(
        fma,
        q,
        visits,
        0,
    ));
}

/// The pruned search finds the five nearest of the clusters that it visits, and a vector of a
/// cluster that it does not visit is not nearer than the fifth if it lies within the bounds of
/// its cluster.
pub proof fn law_pruned_search_skips_nothing_nearer(
    fma: bool,
    l: IndexLayout,
    q: Seq<i16>,
    visit: int,
    block: int,
    slot: int,
)
    requires
        q.len() == 14,
        l.consistent(),
    ensures
        ({
            let visits = l.visits(fma, q);
            let m = l.stops_at(fma, q, seq![], visits, 0);
            let r = l.nearest_five(fma, q);
            let ci = (visits[visit] % 0x1_0000_0000) as int;
            &&& 0 <= m <= visits.len()
            &&& five_nearest(r, l.seen(fma, q, visits, m as nat))
            &&& m <= visit < visits.len() && l.slot_covered(ci, block, slot) ==> r.len() == 5
                && r[4].0.bits <= slot_dist(fma, q, l.blocks@[block], slot).bits
        }),
{
    broadcast use vstd::seq_lib::group_to_multiset_ensures;

    let start = Seq::<(Binary32, u8)>::empty();
    let visits = l.visits(fma, q);
    assert(five_nearest(start, l.seen(fma, q, visits, 0))) by {
        broadcast use vstd::multiset::group_multiset_axioms;

        assert(start.to_multiset() =~= Multiset::empty());
    }
    lemma_visits(fma, l, q);
    lemma_visited_seen(fma, l, q, start, 0);
    let m = l.stops_at(fma, q, start, visits, 0);
    let r = l.nearest_five(fma, q);
    let ci = visits[visit] as int % 0x1_0000_0000;
    if m <= visit < visits.len() && l.slot_covered(ci, block, slot) {
        assert(visits[m] <= visits[visit]);
        let cm = visits[m] as int % 0x1_0000_0000;
        let bound = Binary32 { bits: (visits[m] / 0x1_0000_0000) as u32 };
        assert(bound == l.cluster_bound(fma, q, cm));
        law_lower_bound_in_range(fma, padded_lanes(q), l.bbox_mins@[cm], l.bbox_maxes@[cm]);
        lemma_order_of_nonneg(bound, max_dist());
        assert(r.len() == 5);
        assert(is_dist(r[4].0));
        lemma_order_of_nonneg(bound, r[4].0);
        assert(bound.bits <= l.cluster_bound(fma, q, ci).bits);
        law_bound_holds_for_slot(fma, l, q, ci, block, slot);
    }
}

/// Every cluster is visited at some place.
proof fn lemma_visit_of_cluster(fma: bool, l: IndexLayout, q: Seq<i16>, ci: int) -> (visit: int)
    requires
        l.consistent(),
        0 <= ci < l.bbox_mins@.len(),
    ensures
        0 <= visit < l.visits(fma, q).len(),
        l.visits(fma, q)[visit] as int % 0x1_0000_0000 == ci,
{
    broadcast use vstd::seq_lib::group_to_multiset_ensures;

    lemma_visits(fma, l, q);
    let keys = l.keys(fma, q);
    let visits = l.visits(fma, q);
    let key = keys[ci];
    lemma_key_parts(l.cluster_bound(fma, q, ci), ci);
    assert(keys.contains(key));
    assert(visits.to_multiset().count(key) > 0);
    assert(visits.contains(key));
    choose|visit: int| 0 <= visit < visits.len() && visits[visit] == key
}

/// The candidates of a visit are among those seen after it.
proof fn lemma_seen_holds(
    fma: bool,
    l: IndexLayout,
    q: Seq<i16>,
    visits: Seq<u64>,
    n: nat,
    visit: int,
    e: (Binary32, u8),
)
    requires
        0 <= visit < n <= visits.len(),
        l.cluster_candidates(fma, q, visits[visit] as int % 0x1_0000_0000).contains(e),
    ensures
        l.seen(fma, q, visits, n).count(e) > 0,
    decreases n,
{
    broadcast use vstd::seq_lib::group_to_multiset_ensures;
    broadcast use vstd::multiset::group_multiset_axioms;

    if visit == n - 1 {
        let cands = l.cluster_candidates(fma, q, visits[visit] as int % 0x1_0000_0000);
        assert(cands.to_multiset().count(e) > 0);
    } else {
        lemma_seen_holds(fma, l, q, visits, (n - 1) as nat, visit, e);
    }
}

/// The pruned search finds every vector that is nearer than its fifth, if the vector lies within
/// the bounds of its cluster; if it finds fewer than five, it finds every such vector.
pub proof fn law_pruned_search_finds_what_is_nearer(
    fma: bool,
    l: IndexLayout,
    q: Seq<i16>,
    ci: int,
    block: int,
    slot: int,
)
    requires
        q.len() == 14,
        l.consistent(),
        0 <= ci < l.cluster_sizes@.len(),
        l.cluster_start(ci) <= block < l.cluster_start(ci + 1),
        0 <= slot < 8,
        l.slot_covered(ci, block, slot),
    ensures
        ({
            let r = l.nearest_five(fma, q);
            let d = slot_dist(fma, q, l.blocks@[block], slot);
            r.len() < 5 || d.bits < r[4].0.bits ==> r.contains((d, l.labels@[8 * block + slot]))
        }),
{
    broadcast use vstd::seq_lib::group_to_multiset_ensures;
    broadcast use vstd::multiset::group_multiset_axioms;

    let r = l.nearest_five(fma, q);
    let visits = l.visits(fma, q);
    let e = (slot_dist(fma, q, l.blocks@[block], slot), l.labels@[8 * block + slot]);
    let visit = lemma_visit_of_cluster(fma, l, q, ci);
    law_pruned_search_skips_nothing_nearer(fma, l, q, visit, block, slot);
    let m = l.stops_at(fma, q, seq![], visits, 0);
    if visit < m {
        let sizes = l.cluster_sizes@;
        law_offsets_ascend(sizes, (ci + 1) as nat, sizes.len());
        let bs = l.cluster_start(ci);
        let be = l.cluster_start(ci + 1);
        let cands = l.cluster_candidates(fma, q, ci);
        let at = 8 * (block - bs) + slot;
        assert(at / 8 == block - bs && at % 8 == slot);
        assert(cands.len() == 8 * (be - bs));
        assert(l.blocks@.subrange(bs as int, be as int)[block - bs] == l.blocks@[block]);
        assert(l.labels@.subrange(8 * bs as int, 8 * be as int)[at] == l.labels@[8 * block
            + slot]);
        assert(cands[at] == e);
        lemma_seen_holds(fma, l, q, visits, m as nat, visit, e);
        let seen = l.seen(fma, q, visits, m as nat);
        if r.len() < 5 || e.0.bits < r[4].0.bits {
            if r.to_multiset().count(e) == 0 {
                assert(seen.sub(r.to_multiset()).count(e) > 0);
            }
            assert(r.to_multiset().count(e) > 0);
        }
    }
}

// ── The k nearest ────────────────────────────────────────────────────────────

pub open spec fn heap_dists(s: Seq<(DistF32, u8)>) -> bool {
    forall|i: int| 0 <= i < s.len() ==> is_dist((#[trigger] s[i]).0.0)
}

/// The entries are the `k` nearest of all: they are in order of distance and label, and what is
/// left out is not nearer than the last.
pub open spec fn k_nearest(
    s: Seq<(DistF32, u8)>,
    k: nat,
    all: Multiset<(DistF32, u8)>,
) -> bool {
    &&& s.len() <= k
    &&& entries_sorted(s)
    &&& s.to_multiset().subset_of(all)
    &&& forall|e: (DistF32, u8)|
        #[trigger] all.sub(s.to_multiset()).count(e) > 0 ==> s.len() == k && (k > 0 ==> s[k
            - 1].0.0.bits <= e.0.0.bits)
}

/// The candidates as entries of a heap.
pub open spec fn as_entries(cands: Seq<(Binary32, u8)>) -> Seq<(DistF32, u8)> {
    cands.map_values(|c: (Binary32, u8)| (DistF32(c.0), c.1))
}

pub proof fn lemma_push_dists(s: Seq<(DistF32, u8)>, e: (DistF32, u8))
    requires
        heap_dists(s),
        entries_sorted(s),
        is_dist(e.0.0),
    ensures
        entries_are_numbers(s),
        heap_dists(pushed(s, e)),
        entries_sorted(pushed(s, e)),
        pushed(s, e).len() == s.len() + 1,
        pushed(s, e).to_multiset() == s.to_multiset().insert(e),
        pushed(s, e).last() == e || (s.len() > 0 && pushed(s, e).last() == s.last()),
{
    broadcast use vstd::seq_lib::group_to_multiset_ensures;

    assert forall|i: int| 0 <= i < s.len() implies !(#[trigger] s[i]).0.0.is_nan_spec() by {
        assert(is_dist(s[i].0.0));
    }
    law_push_keeps_order(s, e);
    let r = pushed(s, e);
    lemma_heap_pos_bounds(s, e);
    assert forall|i: int| 0 <= i < r.len() implies is_dist((#[trigger] r[i]).0.0) by {
        let p = heap_pos(s, e);
        if i < p {
            assert(r[i] == s[i]);
        } else if i > p {
            assert(r[i] == s[i - 1]);
        }
    }
}

proof fn lemma_heap_pos_bounds(s: Seq<(DistF32, u8)>, e: (DistF32, u8))
    ensures
        0 <= heap_pos(s, e) <= s.len(),
    decreases s.len(),
{
    if s.len() > 0 && entry_lt(e, s.last()) {
        lemma_heap_pos_bounds(s.drop_last(), e);
    }
}

proof fn lemma_kept_nearest(
    s: Seq<(DistF32, u8)>,
    k: nat,
    all: Multiset<(DistF32, u8)>,
    d: Binary32,
    label: u8,
)
    requires
        k_nearest(s, k, all),
        heap_dists(s),
        is_dist(d),
    ensures
        k_nearest(kept(s, k, d, label), k, all.insert((DistF32(d), label))),
        heap_dists(kept(s, k, d, label)),
{
    broadcast use vstd::seq_lib::group_to_multiset_ensures;
    broadcast use vstd::multiset::group_multiset_axioms;

    let e0 = (DistF32(d), label);
    let r = kept(s, k, d, label);
    let more = all.insert(e0);
    if s.len() < k {
        lemma_push_dists(s, e0);
        assert forall|e: (DistF32, u8)|
            #[trigger] more.sub(r.to_multiset()).count(e) > 0 implies r.len() == k && (k > 0
            ==> r[k - 1].0.0.bits <= e.0.0.bits) by {
            assert(all.sub(s.to_multiset()).count(e) > 0);
        }
    } else if s.len() > 0 {
        let worst = s.last();
        assert(is_dist(s[s.len() - 1].0.0));
        lemma_order_of_nonneg(d, worst.0.0);
        if d.lt_spec(worst.0.0) {
            let h = s.drop_last();
            assert(entries_sorted(h));
            assert(heap_dists(h)) by {
                assert forall|i: int| 0 <= i < h.len() implies is_dist((#[trigger] h[i]).0.0) by {
                    assert(is_dist(s[i].0.0));
                }
            }
            lemma_push_dists(h, e0);
            assert(s =~= h.push(worst));
            assert(s.to_multiset() == h.to_multiset().insert(worst));
            assert(r[k - 1].0.0.bits <= worst.0.0.bits) by {
                if r.last() != e0 {
                    assert(r.last() == h.last());
                    assert(h.last() == s[s.len() - 2]);
                    assert(!entry_lt(s[s.len() - 1], s[s.len() - 2]));
                    assert(is_dist(s[s.len() - 2].0.0));
                }
            }
            assert forall|e: (DistF32, u8)|
                #[trigger] more.sub(r.to_multiset()).count(e) > 0 implies r.len() == k && (k > 0
                ==> r[k - 1].0.0.bits <= e.0.0.bits) by {
                if e != worst {
                    assert(all.sub(s.to_multiset()).count(e) > 0);
                }
            }
        } else {
            assert forall|e: (DistF32, u8)|
                #[trigger] more.sub(r.to_multiset()).count(e) > 0 implies r.len() == k && (k > 0
                ==> r[k - 1].0.0.bits <= e.0.0.bits) by {
                if e != e0 {
                    assert(all.sub(s.to_multiset()).count(e) > 0);
                }
            }
        }
    }
}

/// A heap of capacity `k` ends up with the `k` nearest of the candidates that it was offered.
pub proof fn law_heap_finds_nearest(
    s: Seq<(DistF32, u8)>,
    k: nat,
    all: Multiset<(DistF32, u8)>,
    cands: Seq<(Binary32, u8)>,
)
    requires
        k_nearest(s, k, all),
        heap_dists(s),
        all_dists(cands),
    ensures
        k_nearest(kept_all(s, k, cands), k, all.add(as_entries(cands).to_multiset())),
        heap_dists(kept_all(s, k, cands)),
    decreases cands.len(),
{
    broadcast use vstd::seq_lib::group_to_multiset_ensures;
    broadcast use vstd::multiset::group_multiset_axioms;

    let entries = as_entries(cands);
    if cands.len() == 0 {
        assert(all.add(entries.to_multiset()) =~= all);
    } else {
        let h = cands.drop_last();
        let last = cands.last();
        assert(all_dists(h)) by {
            assert forall|i: int| 0 <= i < h.len() implies is_dist((#[trigger] h[i]).0) by {
                assert(is_dist(cands[i].0));
            }
        }
        assert(is_dist(cands[cands.len() - 1].0));
        law_heap_finds_nearest(s, k, all, h);
        assert(entries =~= as_entries(h).push((DistF32(last.0), last.1)));
        assert(all.add(entries.to_multiset()) =~= all.add(as_entries(h).to_multiset()).insert(
            (DistF32(last.0), last.1),
        ));
        lemma_kept_nearest(
            kept_all(s, k, h),
            k,
            all.add(as_entries(h).to_multiset()),
            last.0,
            last.1,
        );
    }
}

impl IndexLayout {
    /// The entries of every slot of the first `n` clusters.
    pub open spec fn all_entries(&self, fma: bool, query: Seq<i16>, n: nat) -> Multiset<
        (DistF32, u8),
    >
        decreases n,
    {
        if n == 0 {
            Multiset::empty()
        } else {
            self.all_entries(fma, query, (n - 1) as nat).add(
                as_entries(self.cluster_candidates(fma, query, n - 1)).to_multiset(),
            )
        }
    }
}

/// The scan of all clusters finds the `k` nearest of all vectors of the index.
pub proof fn law_full_scan_is_exact(fma: bool, l: IndexLayout, q: Seq<i16>, k: nat, n: nat)
    ensures
        k_nearest(l.scanned(fma, q, seq![], k, n), k, l.all_entries(fma, q, n)),
        heap_dists(l.scanned(fma, q, seq![], k, n)),
    decreases n,
{
    if n == 0 {
        broadcast use vstd::seq_lib::group_to_multiset_ensures;
        broadcast use vstd::multiset::group_multiset_axioms;

        let none = Seq::<(DistF32, u8)>::empty();
        assert(none.to_multiset() =~= Multiset::empty());
    } else {
        law_full_scan_is_exact(fma, l, q, k, (n - 1) as nat);
        lemma_cluster_dists(fma, l, q, n - 1);
        law_heap_finds_nearest(
            l.scanned(fma, q, seq![], k, (n - 1) as nat),
            k,
            l.all_entries(fma, q, (n - 1) as nat),
            l.cluster_candidates(fma, q, n - 1),
        );
    }
}

// ── Results ──────────────────────────────────────────────────────────────────

/// The search gives at most five results, with finite distances in ascending order.
pub proof fn law_results_are_in_order(fma: bool, l: IndexLayout, q: Seq<i16>)
    requires
        l.consistent(),
    ensures
        l.nearest_five(fma, q).len() <= 5,
        all_dists(l.nearest_five(fma, q)),
        by_distance(l.nearest_five(fma, q)),
{
    broadcast use vstd::seq_lib::group_to_multiset_ensures;

    let start = Seq::<(Binary32, u8)>::empty();
    assert(five_nearest(start, l.seen(fma, q, l.visits(fma, q), 0))) by {
        broadcast use vstd::multiset::group_multiset_axioms;

        assert(start.to_multiset() =~= Multiset::empty());
    }
    lemma_visited_seen(fma, l, q, start, 0);
}

/// The fraud score is a multiple of a fifth, from zero to one.
pub proof fn law_fraud_score_is_a_fifth(fma: bool, l: IndexLayout, q: Seq<i16>)
    requires
        l.consistent(),
    ensures
        frauds(l.nearest_five(fma, q)) <= 5,
        Binary32::of_int(frauds(l.nearest_five(fma, q)) as int).div_spec(Binary32::of_int(5)).bits
            == fifth_bits(frauds(l.nearest_five(fma, q))),
{
    law_results_are_in_order(fma, l, q);
    lemma_frauds_bound(l.nearest_five(fma, q));
    lemma_fifth(frauds(l.nearest_five(fma, q)));
}

} // verus!
