//! What the search for the `k` nearest gives: as many as there are up to `k`, at the smallest
//! distances.

use vstd::prelude::*;
use vstd::multiset::Multiset;

use crate::binary32::Binary32;
#[allow(unused_imports)]
use crate::index::distance::is_dist;
use crate::index::layout::IndexLayout;
#[allow(unused_imports)]
use crate::index::nearest::{as_entries, law_full_scan_is_exact, law_pruned_search_is_exact};
use crate::index::search::DistF32;
#[allow(unused_imports)]
use crate::index::search::entry_lt;
#[allow(unused_imports)]
use crate::index::{block_offset, law_offsets_ascend};

verus! {

// ── The smallest of many ─────────────────────────────────────────────────────

/// The numbers are in ascending order, are among all, and are the smallest: what is left out is
/// not smaller than any of them.
pub open spec fn smallest(a: Seq<u32>, all: Multiset<u32>) -> bool {
    &&& forall|i: int, j: int| 0 <= i <= j < a.len() ==> #[trigger] a[i] <= #[trigger] a[j]
    &&& a.to_multiset().subset_of(all)
    &&& forall|x: u32, i: int|
        #![trigger all.sub(a.to_multiset()).count(x), a[i]]
        all.sub(a.to_multiset()).count(x) > 0 && 0 <= i < a.len() ==> a[i] <= x
}

/// The first of the smallest is the least of all.
proof fn lemma_first_is_least(a: Seq<u32>, all: Multiset<u32>, x: u32)
    requires
        smallest(a, all),
        a.len() > 0,
        all.count(x) > 0,
    ensures
        a[0] <= x,
{
    broadcast use vstd::seq_lib::group_to_multiset_ensures;
    broadcast use vstd::multiset::group_multiset_axioms;

    if a.to_multiset().count(x) > 0 {
        let i = choose|i: int| 0 <= i < a.len() && a[i] == x;
        assert(a.contains(x));
        assert(a[0] <= a[i]);
    } else {
        assert(all.sub(a.to_multiset()).count(x) > 0);
        assert(a[0] <= x);
    }
}

/// Without the first, the rest are the smallest of the others.
proof fn lemma_without_first(a: Seq<u32>, all: Multiset<u32>)
    requires
        smallest(a, all),
        a.len() > 0,
    ensures
        smallest(a.skip(1), all.remove(a[0])),
{
    broadcast use vstd::seq_lib::group_to_multiset_ensures;
    broadcast use vstd::multiset::group_multiset_axioms;

    let b = a.skip(1);
    let less = all.remove(a[0]);
    assert(b =~= a.remove(0));
    assert(b.to_multiset() == a.to_multiset().remove(a[0]));
    assert(a.contains(a[0]));
    assert(a.to_multiset().count(a[0]) > 0);
    assert forall|i: int, j: int| 0 <= i <= j < b.len() implies #[trigger] b[i]
        <= #[trigger] b[j] by {
        assert(a[i + 1] <= a[j + 1]);
    }
    assert forall|x: u32| b.to_multiset().count(x) <= #[trigger] less.count(x) by {
        assert(a.to_multiset().count(x) <= all.count(x));
    }
    assert forall|x: u32, i: int|
        #![trigger less.sub(b.to_multiset()).count(x), b[i]]
        less.sub(b.to_multiset()).count(x) > 0 && 0 <= i < b.len() implies b[i] <= x by {
        assert(all.sub(a.to_multiset()).count(x) > 0);
        assert(a[i + 1] <= x);
    }
}

/// Fewer of the smallest are the first of more of the smallest.
proof fn lemma_smallest_is_prefix(a: Seq<u32>, b: Seq<u32>, all: Multiset<u32>)
    requires
        smallest(a, all),
        smallest(b, all),
        a.len() <= b.len(),
    ensures
        a == b.take(a.len() as int),
    decreases a.len(),
{
    broadcast use vstd::seq_lib::group_to_multiset_ensures;
    broadcast use vstd::multiset::group_multiset_axioms;

    if a.len() > 0 {
        assert(a.contains(a[0]) && b.contains(b[0]));
        assert(a.to_multiset().count(a[0]) > 0 && b.to_multiset().count(b[0]) > 0);
        assert(all.count(a[0]) > 0 && all.count(b[0]) > 0);
        lemma_first_is_least(a, all, b[0]);
        lemma_first_is_least(b, all, a[0]);
        lemma_without_first(a, all);
        lemma_without_first(b, all);
        lemma_smallest_is_prefix(a.skip(1), b.skip(1), all.remove(a[0]));
        assert forall|i: int| 0 <= i < a.len() implies a[i] == b[i] by {
            if i > 0 {
                assert(a.skip(1)[i - 1] == b.skip(1).take(a.len() - 1)[i - 1]);
            }
        }
        assert(a =~= b.take(a.len() as int));
    } else {
        assert(a =~= b.take(0));
    }
}

/// The first of the smallest are the smallest too.
proof fn lemma_prefix_is_smallest(a: Seq<u32>, n: int, all: Multiset<u32>)
    requires
        smallest(a, all),
        0 <= n <= a.len(),
    ensures
        smallest(a.take(n), all),
    decreases a.len() - n,
{
    broadcast use vstd::seq_lib::group_to_multiset_ensures;
    broadcast use vstd::multiset::group_multiset_axioms;

    if n == a.len() {
        assert(a.take(n) =~= a);
    } else {
        lemma_prefix_is_smallest(a, n + 1, all);
        let more = a.take(n + 1);
        let b = a.take(n);
        assert(more =~= b.push(a[n]));
        assert(more.to_multiset() == b.to_multiset().insert(a[n]));
        assert forall|x: u32| b.to_multiset().count(x) <= #[trigger] all.count(x) by {
            assert(more.to_multiset().count(x) <= all.count(x));
        }
        assert forall|x: u32, i: int|
            #![trigger all.sub(b.to_multiset()).count(x), b[i]]
            all.sub(b.to_multiset()).count(x) > 0 && 0 <= i < b.len() implies b[i] <= x by {
            assert(b[i] == more[i]);
            if x == a[n] {
                assert(a[i] <= a[n]);
            } else {
                assert(all.sub(more.to_multiset()).count(x) > 0);
            }
        }
    }
}

// ── Entries by distance ──────────────────────────────────────────────────────

/// Sequences of the same entries have the same keys.
proof fn lemma_same_keys<A, B>(s: Seq<A>, t: Seq<A>, key: spec_fn(A) -> B)
    requires
        s.to_multiset() == t.to_multiset(),
    ensures
        s.map_values(key).to_multiset() == t.map_values(key).to_multiset(),
    decreases s.len(),
{
    broadcast use vstd::seq_lib::group_to_multiset_ensures;
    broadcast use vstd::multiset::group_multiset_axioms;

    assert(s.len() == s.to_multiset().len() && t.len() == t.to_multiset().len());
    if s.len() == 0 {
        assert(s =~= t);
    } else {
        let a = s.last();
        let h = s.drop_last();
        assert(s =~= h.push(a));
        assert(s.contains(a));
        assert(t.to_multiset().count(a) > 0);
        assert(t.contains(a));
        let i = choose|i: int| 0 <= i < t.len() && t[i] == a;
        let g = t.remove(i);
        assert(h.to_multiset() =~= s.to_multiset().remove(a));
        assert(g.to_multiset() =~= t.to_multiset().remove(a));
        lemma_same_keys(h, g, key);
        assert(s.map_values(key) =~= h.map_values(key).push(key(a)));
        assert(g.map_values(key) =~= t.map_values(key).remove(i));
        let mt = t.map_values(key);
        assert(mt.contains(mt[i]));
        assert(mt.to_multiset().count(key(a)) > 0);
        assert(mt.to_multiset() =~= mt.remove(i).to_multiset().insert(key(a)));
    }
}

/// The entries of a multiset in some order.
proof fn lemma_in_some_order<A>(m: Multiset<A>) -> (s: Seq<A>)
    ensures
        s.to_multiset() == m,
    decreases m.len(),
{
    broadcast use vstd::seq_lib::group_to_multiset_ensures;
    broadcast use vstd::multiset::group_multiset_axioms;

    if m.len() == 0 {
        let s = Seq::<A>::empty();
        assert(s.to_multiset() =~= m);
        s
    } else {
        let a = m.choose();
        assert(m.count(a) > 0);
        let h = lemma_in_some_order(m.remove(a));
        let s = h.push(a);
        assert(s.to_multiset() =~= m);
        s
    }
}

/// What holds some entries holds them under any name, and what is left out keeps its name.
pub proof fn lemma_renamed<A, B>(s: Seq<A>, all: Seq<A>, name: spec_fn(A) -> B, b: B)
    requires
        s.to_multiset().subset_of(all.to_multiset()),
    ensures
        s.map_values(name).to_multiset().subset_of(all.map_values(name).to_multiset()),
        all.map_values(name).to_multiset().sub(s.map_values(name).to_multiset()).count(b) > 0
            ==> exists|a: A|
            name(a) == b && #[trigger] all.to_multiset().sub(s.to_multiset()).count(a) > 0,
{
    broadcast use vstd::seq_lib::group_to_multiset_ensures;
    broadcast use vstd::multiset::group_multiset_axioms;

    let left = all.to_multiset().sub(s.to_multiset());
    let rest = lemma_in_some_order(left);
    let both = s + rest;
    vstd::seq_lib::lemma_multiset_commutative(s, rest);
    assert(both.to_multiset() =~= all.to_multiset());
    lemma_same_keys(both, all, name);
    let (ns, nr) = (s.map_values(name), rest.map_values(name));
    assert(both.map_values(name) =~= ns + nr);
    vstd::seq_lib::lemma_multiset_commutative(ns, nr);
    let named = all.map_values(name).to_multiset();
    assert(named =~= ns.to_multiset().add(nr.to_multiset()));
    assert(named.sub(ns.to_multiset()) =~= nr.to_multiset());
    if nr.to_multiset().count(b) > 0 {
        assert(nr.contains(b));
        let j = choose|j: int| 0 <= j < nr.len() && nr[j] == b;
        assert(rest.contains(rest[j]));
        assert(left.count(rest[j]) > 0);
    }
}

/// The keys of the nearest of some entries are the smallest of the keys of all.
proof fn lemma_keys_are_smallest<A>(s: Seq<A>, all: Seq<A>, key: spec_fn(A) -> u32, k: nat)
    requires
        s.len() <= k,
        forall|i: int, j: int|
            0 <= i <= j < s.len() ==> key(#[trigger] s[i]) <= key(#[trigger] s[j]),
        s.to_multiset().subset_of(all.to_multiset()),
        forall|e: A|
            #[trigger] all.to_multiset().sub(s.to_multiset()).count(e) > 0 ==> s.len() == k && (k
                > 0 ==> key(s[k - 1]) <= key(e)),
    ensures
        s.len() == if k <= all.len() {
            k
        } else {
            all.len()
        },
        smallest(s.map_values(key), all.map_values(key).to_multiset()),
{
    broadcast use vstd::seq_lib::group_to_multiset_ensures;
    broadcast use vstd::multiset::group_multiset_axioms;

    let left = all.to_multiset().sub(s.to_multiset());
    let rest = lemma_in_some_order(left);
    let both = s + rest;
    vstd::seq_lib::lemma_multiset_commutative(s, rest);
    assert(both.to_multiset() =~= all.to_multiset());
    assert(both.len() == both.to_multiset().len() && all.len() == all.to_multiset().len());
    if rest.len() > 0 {
        assert(rest.contains(rest[0]));
        assert(left.count(rest[0]) > 0);
    }
    lemma_same_keys(both, all, key);
    let a = s.map_values(key);
    let b = rest.map_values(key);
    let keys = all.map_values(key).to_multiset();
    assert(both.map_values(key) =~= a + b);
    vstd::seq_lib::lemma_multiset_commutative(a, b);
    assert(keys =~= a.to_multiset().add(b.to_multiset()));
    assert(keys.sub(a.to_multiset()) =~= b.to_multiset());
    assert forall|x: u32, i: int|
        #![trigger keys.sub(a.to_multiset()).count(x), a[i]]
        keys.sub(a.to_multiset()).count(x) > 0 && 0 <= i < a.len() implies a[i] <= x by {
        assert(b.to_multiset().count(x) > 0);
        assert(b.contains(x));
        let j = choose|j: int| 0 <= j < b.len() && b[j] == x;
        let e = rest[j];
        assert(rest.contains(e));
        assert(left.count(e) > 0);
        assert(key(s[i]) <= key(s[k - 1]));
    }
    assert forall|i: int, j: int| 0 <= i <= j < a.len() implies #[trigger] a[i]
        <= #[trigger] a[j] by {
        assert(key(s[i]) <= key(s[j]));
    }
}

// ── The index ────────────────────────────────────────────────────────────────

impl IndexLayout {
    /// The distance and label of every slot of the first `n` clusters, in order.
    pub open spec fn slots(&self, fma: bool, query: Seq<i16>, n: nat) -> Seq<(Binary32, u8)>
        decreases n,
    {
        if n == 0 {
            seq![]
        } else {
            self.slots(fma, query, (n - 1) as nat) + self.cluster_candidates(fma, query, n - 1)
        }
    }

    /// The distances of all slots, by their bits, which are ordered as the distances.
    pub open spec fn slot_bits(&self, fma: bool, query: Seq<i16>) -> Seq<u32> {
        self.slots(fma, query, self.cluster_sizes@.len()).map_values(|e: (Binary32, u8)| e.0.bits)
    }
}

/// The distances of results, by their bits.
pub open spec fn result_bits(results: Seq<(DistF32, u8)>) -> Seq<u32> {
    results.map_values(|e: (DistF32, u8)| e.0.0.bits)
}

/// The distance and label of every slot of the first clusters, counted and by multiset.
pub proof fn lemma_slots(fma: bool, l: IndexLayout, q: Seq<i16>, n: nat)
    requires
        l.consistent(),
        n <= l.cluster_sizes@.len(),
    ensures
        l.slots(fma, q, n).len() == 8 * l.cluster_start(n as int),
        l.slots(fma, q, n).to_multiset() == l.all_candidates(fma, q, n),
        as_entries(l.slots(fma, q, n)).to_multiset() == l.all_entries(fma, q, n),
    decreases n,
{
    broadcast use vstd::seq_lib::group_to_multiset_ensures;
    broadcast use vstd::multiset::group_multiset_axioms;

    let s = l.slots(fma, q, n);
    if n == 0 {
        assert(s.to_multiset() =~= Multiset::empty());
        assert(as_entries(s) =~= seq![]);
        assert(as_entries(s).to_multiset() =~= Multiset::empty());
    } else {
        let h = l.slots(fma, q, (n - 1) as nat);
        let c = l.cluster_candidates(fma, q, n - 1);
        lemma_slots(fma, l, q, (n - 1) as nat);
        let sizes = l.cluster_sizes@;
        law_offsets_ascend(sizes, (n - 1) as nat, n);
        law_offsets_ascend(sizes, n, sizes.len());
        assert(c.len() == 8 * (l.cluster_start(n as int) - l.cluster_start(n - 1)));
        vstd::seq_lib::lemma_multiset_commutative(h, c);
        assert(as_entries(s) =~= as_entries(h) + as_entries(c));
        vstd::seq_lib::lemma_multiset_commutative(as_entries(h), as_entries(c));
    }
}

/// The search gives `k` results, or as many as the index has slots, and their distances are the
/// smallest of all, in ascending order. For up to five results the bounds of each cluster have to
/// cover its vectors.
pub proof fn law_knn_is_exact(fma: bool, l: IndexLayout, q: Seq<i16>, k: nat)
    requires
        q.len() == 14,
        l.consistent(),
        k <= 5 ==> l.covered(),
    ensures
        l.slot_bits(fma, q).len() == 8 * block_offset(l.cluster_sizes@, l.cluster_sizes@.len()),
        l.knn(fma, q, k).len() == if k <= l.slot_bits(fma, q).len() {
            k
        } else {
            l.slot_bits(fma, q).len()
        },
        smallest(result_bits(l.knn(fma, q, k)), l.slot_bits(fma, q).to_multiset()),
{
    let n = l.cluster_sizes@.len();
    let all = l.slots(fma, q, n);
    lemma_slots(fma, l, q, n);
    let key = |e: (Binary32, u8)| e.0.bits;
    let entry_key = |e: (DistF32, u8)| e.0.0.bits;
    let r = l.knn(fma, q, k);
    if k <= 5 {
        let five = l.nearest_five(fma, q);
        law_pruned_search_is_exact(fma, l, q);
        lemma_keys_are_smallest(five, all, key, 5);
        let m = if k <= five.len() {
            k as int
        } else {
            five.len() as int
        };
        lemma_prefix_is_smallest(five.map_values(key), m, l.slot_bits(fma, q).to_multiset());
        assert(result_bits(r) =~= five.map_values(key).take(m));
    } else {
        law_full_scan_is_exact(fma, l, q, k, n);
        let entries = as_entries(all);
        assert forall|i: int, j: int| 0 <= i <= j < r.len() implies entry_key(#[trigger] r[i])
            <= entry_key(#[trigger] r[j]) by {
            assert(is_dist(r[i].0.0) && is_dist(r[j].0.0));
            if i < j {
                assert(!entry_lt(r[j], r[i]));
            }
        }
        lemma_keys_are_smallest(r, entries, entry_key, k);
        assert(entries.map_values(entry_key) =~= l.slot_bits(fma, q));
    }
}

/// The distances of fewer results are the first of the distances of more results.
pub proof fn law_fewer_results_come_first(fma: bool, l: IndexLayout, q: Seq<i16>, j: nat, k: nat)
    requires
        q.len() == 14,
        l.consistent(),
        j <= k,
        j <= 5 ==> l.covered(),
    ensures
        l.knn(fma, q, j).len() <= l.knn(fma, q, k).len(),
        result_bits(l.knn(fma, q, j)) == result_bits(l.knn(fma, q, k)).take(
            l.knn(fma, q, j).len() as int,
        ),
{
    law_knn_is_exact(fma, l, q, j);
    law_knn_is_exact(fma, l, q, k);
    lemma_smallest_is_prefix(
        result_bits(l.knn(fma, q, j)),
        result_bits(l.knn(fma, q, k)),
        l.slot_bits(fma, q).to_multiset(),
    );
}

} // verus!
