//! Randomized quickselect over `(key, tag)` pairs, ordered descending by key.
//!
//! The tag carries a caller-chosen payload (such as an original index) through
//! the reordering. Pivot choice comes from an explicitly seeded generator; the
//! selected value is an order statistic of the key multiset, so it does not
//! depend on the pivots drawn.

use vstd::prelude::*;
use vstd::multiset::Multiset;
use vstd::seq_lib::to_multiset_update;

use crate::rng::SeededRng;

verus! {

/// Descending order on keys.
pub open spec fn sorted_desc_keys(s: Seq<(u64, usize)>) -> bool {
    forall|a: int, b: int| 0 <= a <= b < s.len() ==> s[a].0 >= s[b].0
}

/// `s` is partitioned at `k`: everything before position `k` has a key at
/// least `s[k].0`, everything after has a key at most `s[k].0`.
pub open spec fn partitioned_at(s: Seq<(u64, usize)>, k: int) -> bool {
    &&& forall|t: int| 0 <= t < k ==> s[t].0 >= s[k].0
    &&& forall|t: int| k < t < s.len() ==> s[t].0 <= s[k].0
}

proof fn lemma_filter_multiset(s: Seq<(u64, usize)>, p: spec_fn((u64, usize)) -> bool)
    ensures
        s.filter(p).to_multiset() == s.to_multiset().filter(p),
        s.filter(p).len() == s.to_multiset().filter(p).len(),
    decreases s.len(),
{
    reveal(Seq::filter);
    broadcast use vstd::multiset::group_multiset_axioms, vstd::multiset::group_multiset_properties;

    s.filter(p).to_multiset_ensures();
    if s.len() == 0 {
        assert(s.to_multiset() =~= Multiset::<(u64, usize)>::empty());
        assert(s.filter(p) =~= Seq::<(u64, usize)>::empty());
        assert(s.filter(p).to_multiset() =~= s.to_multiset().filter(p));
    } else {
        let s1 = s.drop_last();
        let a = s.last();
        lemma_filter_multiset(s1, p);
        s1.to_multiset_ensures();
        s1.filter(p).to_multiset_ensures();
        assert(s =~= s1.push(a));
        assert(s.to_multiset() == s1.to_multiset().insert(a));
        assert(s.to_multiset().filter(p) =~= if p(a) {
            s1.to_multiset().filter(p).insert(a)
        } else {
            s1.to_multiset().filter(p)
        });
        if p(a) {
            assert(s.filter(p) == s1.filter(p).push(a));
            assert(s.filter(p).to_multiset() == s1.filter(p).to_multiset().insert(a));
        } else {
            assert(s.filter(p) == s1.filter(p));
        }
    }
}

proof fn lemma_filter_prefix_lower(s: Seq<(u64, usize)>, p: spec_fn((u64, usize)) -> bool, m: int)
    requires
        0 <= m <= s.len(),
        forall|t: int| 0 <= t < m ==> p(s[t]),
    ensures
        s.filter(p).len() >= m,
    decreases s.len(),
{
    reveal(Seq::filter);
    if s.len() == 0 {
    } else {
        let s1 = s.drop_last();
        let a = s.last();
        if m == s.len() {
            lemma_filter_prefix_lower(s1, p, m - 1);
        } else {
            lemma_filter_prefix_lower(s1, p, m);
        }
    }
}

proof fn lemma_filter_suffix_upper(s: Seq<(u64, usize)>, p: spec_fn((u64, usize)) -> bool, m: int)
    requires
        0 <= m <= s.len(),
        forall|t: int| m <= t < s.len() ==> !p(s[t]),
    ensures
        s.filter(p).len() <= m,
    decreases s.len(),
{
    reveal(Seq::filter);
    if s.len() == 0 {
    } else {
        let s1 = s.drop_last();
        if m == s.len() {
            s.lemma_filter_len(p);
        } else {
            lemma_filter_suffix_upper(s1, p, m);
        }
    }
}

proof fn lemma_pinned_one_sided(s1: Seq<(u64, usize)>, s2: Seq<(u64, usize)>, k: int)
    requires
        s1.to_multiset() == s2.to_multiset(),
        s1.len() == s2.len(),
        0 <= k < s1.len(),
        partitioned_at(s1, k),
        partitioned_at(s2, k),
    ensures
        s1[k].0 >= s2[k].0,
{
    if s1[k].0 < s2[k].0 {
        let x2 = s2[k].0;
        let p = |e: (u64, usize)| e.0 >= x2;
        lemma_filter_prefix_lower(s2, p, k + 1);
        lemma_filter_suffix_upper(s1, p, k);
        lemma_filter_multiset(s1, p);
        lemma_filter_multiset(s2, p);
        assert(false);
    }
}

/// Law: if two reorderings of the same entries are both partitioned at `k`
/// (in particular if one of them is fully sorted descending), their entries
/// at position `k` carry the same key. So the key that `quickselect` leaves
/// at position `k` equals the key at position `k` of a full descending sort:
/// the `k`-th order statistic of the key multiset.
pub proof fn lemma_selection_is_order_statistic(
    s1: Seq<(u64, usize)>,
    s2: Seq<(u64, usize)>,
    k: int,
)
    requires
        s1.to_multiset() == s2.to_multiset(),
        0 <= k < s1.len(),
        partitioned_at(s1, k),
        partitioned_at(s2, k),
    ensures
        s1[k].0 == s2[k].0,
{
    s1.to_multiset_ensures();
    s2.to_multiset_ensures();
    assert(s1.len() == s2.len());
    lemma_pinned_one_sided(s1, s2, k);
    lemma_pinned_one_sided(s2, s1, k);
}

/// A descending-sorted sequence is partitioned at every position.
pub proof fn lemma_sorted_desc_partitioned(s: Seq<(u64, usize)>, k: int)
    requires
        sorted_desc_keys(s),
        0 <= k < s.len(),
    ensures
        partitioned_at(s, k),
{
}

/// The key at position `k` of any reordering of `s` that is partitioned at
/// `k` — by `lemma_selection_is_order_statistic` they all agree, so this is
/// the `k`-th largest key of `s`, whatever pivots a selection drew.
pub open spec fn kth_key_desc(s: Seq<(u64, usize)>, k: int) -> u64 {
    let w = choose|w: Seq<(u64, usize)>|
        w.to_multiset() == s.to_multiset() && partitioned_at(w, k);
    w[k].0
}

proof fn lemma_swap_multiset(s: Seq<(u64, usize)>, i: int, j: int)
    requires
        0 <= i < s.len(),
        0 <= j < s.len(),
    ensures
        s.update(i, s[j]).update(j, s[i]).to_multiset() == s.to_multiset(),
{
    broadcast use vstd::multiset::group_multiset_axioms;

    to_multiset_update(s, i, s[j]);
    to_multiset_update(s.update(i, s[j]), j, s[i]);
    s.to_multiset_ensures();
    assert(s.contains(s[i]));
    assert(s.contains(s[j]));
    assert(s.update(i, s[j]).update(j, s[i]).to_multiset() =~= s.to_multiset());
}

proof fn lemma_window_source(pre: Seq<(u64, usize)>, post: Seq<(u64, usize)>, lo: int, hi: int, a: int)
    requires
        0 <= lo <= a < hi <= pre.len(),
        hi <= post.len(),
        post.subrange(lo, hi).to_multiset() == pre.subrange(lo, hi).to_multiset(),
    ensures
        exists|u: int| lo <= u < hi && pre[u] == post[a],
{
    let sub_pre = pre.subrange(lo, hi);
    let sub_post = post.subrange(lo, hi);
    sub_pre.to_multiset_ensures();
    sub_post.to_multiset_ensures();
    assert(sub_post[a - lo] == post[a]);
    assert(sub_post.contains(post[a]));
    assert(sub_pre.to_multiset().count(post[a]) > 0);
    assert(sub_pre.contains(post[a]));
    let w = choose|w: int| 0 <= w < sub_pre.len() && sub_pre[w] == post[a];
    assert(pre[lo + w] == post[a]);
}

/// Every entry of a reordering occurs somewhere in the sequence it rearranges.
pub proof fn lemma_multiset_member(pre: Seq<(u64, usize)>, post: Seq<(u64, usize)>, a: int)
    requires
        post.to_multiset() == pre.to_multiset(),
        0 <= a < post.len(),
    ensures
        exists|u: int| 0 <= u < pre.len() && pre[u] == post[a],
{
    pre.to_multiset_ensures();
    post.to_multiset_ensures();
    assert(post.contains(post[a]));
    assert(pre.to_multiset().count(post[a]) > 0);
    assert(pre.contains(post[a]));
    let w = choose|w: int| 0 <= w < pre.len() && pre[w] == post[a];
    assert(pre[w] == post[a]);
}

proof fn lemma_swap_in_window(pre: Seq<(u64, usize)>, post: Seq<(u64, usize)>, lo: int, hi: int, i: int, j: int)
    requires
        0 <= lo <= i < hi <= pre.len(),
        lo <= j < hi,
        post == pre.update(i, pre[j]).update(j, pre[i]),
    ensures
        post.subrange(lo, hi).to_multiset() == pre.subrange(lo, hi).to_multiset(),
{
    let ps = pre.subrange(lo, hi);
    let qs = ps.update(i - lo, ps[j - lo]).update(j - lo, ps[i - lo]);
    assert(ps.len() == hi - lo);
    assert forall|t: int| 0 <= t < hi - lo implies post.subrange(lo, hi)[t] == qs[t] by {
        assert(post.subrange(lo, hi)[t] == post[lo + t]);
    }
    assert(post.subrange(lo, hi) =~= qs);
    lemma_swap_multiset(ps, i - lo, j - lo);
}

fn swap_elems(v: &mut Vec<(u64, usize)>, i: usize, j: usize)
    requires
        i < old(v)@.len(),
        j < old(v)@.len(),
    ensures
        final(v)@ == old(v)@.update(i as int, old(v)@[j as int]).update(
            j as int,
            old(v)@[i as int],
        ),
        final(v)@.to_multiset() == old(v)@.to_multiset(),
        final(v)@.len() == old(v)@.len(),
{
    proof {
        lemma_swap_multiset(old(v)@, i as int, j as int);
    }
    let a = v[i];
    let b = v[j];
    v.set(i, b);
    v.set(j, a);
}

/// Partitions `v[lo..hi]` around the pivot at index `p`, descending: returns
/// the pivot's final position `q`; keys in `[lo, q)` are at least the pivot
/// key, keys in `(q, hi)` are strictly below it. Entries outside `[lo, hi)`
/// are untouched and the entry multisets of the window and of the whole
/// vector are preserved.
fn partition(v: &mut Vec<(u64, usize)>, lo: usize, hi: usize, p: usize) -> (q: usize)
    requires
        lo <= p < hi <= old(v)@.len(),
    ensures
        lo <= q < hi,
        final(v)@.len() == old(v)@.len(),
        final(v)@.to_multiset() == old(v)@.to_multiset(),
        final(v)@.subrange(lo as int, hi as int).to_multiset() == old(v)@.subrange(
            lo as int,
            hi as int,
        ).to_multiset(),
        forall|t: int| 0 <= t < lo ==> final(v)@[t] == old(v)@[t],
        forall|t: int| hi <= t < old(v)@.len() ==> final(v)@[t] == old(v)@[t],
        final(v)@[q as int].0 == old(v)@[p as int].0,
        forall|t: int| lo <= t < q ==> final(v)@[t].0 >= final(v)@[q as int].0,
        forall|t: int| q < t < hi ==> final(v)@[t].0 < final(v)@[q as int].0,
{
    let ghost pre = v@;
    swap_elems(v, lo, p);
    proof {
        lemma_swap_in_window(pre, v@, lo as int, hi as int, lo as int, p as int);
    }
    let pv: u64 = v[lo].0;

    let ghost orig = v@;
    let mut i: usize = lo + 1;
    let mut j: usize = hi - 1;

    loop
        invariant_except_break
            lo < i <= hi,
            lo <= j < hi,
            hi <= v@.len(),
            v@.len() == orig.len(),
            v@.to_multiset() == orig.to_multiset(),
            v@.subrange(lo as int, hi as int).to_multiset() == orig.subrange(
                lo as int,
                hi as int,
            ).to_multiset(),
            forall|t: int| 0 <= t < lo ==> v@[t] == orig[t],
            forall|t: int| hi <= t < orig.len() ==> v@[t] == orig[t],
            v@[lo as int].0 == pv,
            forall|t: int| lo < t < i ==> v@[t].0 >= pv,
            forall|t: int| j < t < hi ==> v@[t].0 < pv,
        ensures
            lo <= j < hi,
            v@.len() == orig.len(),
            v@.to_multiset() == orig.to_multiset(),
            v@.subrange(lo as int, hi as int).to_multiset() == orig.subrange(
                lo as int,
                hi as int,
            ).to_multiset(),
            forall|t: int| 0 <= t < lo ==> v@[t] == orig[t],
            forall|t: int| hi <= t < orig.len() ==> v@[t] == orig[t],
            v@[lo as int].0 == pv,
            forall|t: int| lo < t < j + 1 ==> v@[t].0 >= pv,
            forall|t: int| j < t < hi ==> v@[t].0 < pv,
        decreases hi - i + j,
    {
        while i < hi && v[i].0 >= pv
            invariant
                lo < i <= hi,
                hi <= v@.len(),
                v@[lo as int].0 == pv,
                forall|t: int| lo < t < i ==> v@[t].0 >= pv,
            decreases hi - i,
        {
            i = i + 1;
        }

        while v[j].0 < pv
            invariant
                lo <= j < hi,
                hi <= v@.len(),
                v@[lo as int].0 == pv,
                forall|t: int| j < t < hi ==> v@[t].0 < pv,
            decreases j,
        {
            assert(j != lo);
            j = j - 1;
        }

        if i > j {
            break;
        }

        let ghost before = v@;
        swap_elems(v, i, j);
        proof {
            lemma_swap_in_window(before, v@, lo as int, hi as int, i as int, j as int);
        }
        i = i + 1;
    }

    let ghost before = v@;
    swap_elems(v, lo, j);
    proof {
        lemma_swap_in_window(before, v@, lo as int, hi as int, lo as int, j as int);
        assert forall|t: int| 0 <= t < lo implies v@[t] == old(v)@[t] by {
            assert(v@[t] == before[t]);
            assert(before[t] == orig[t]);
            assert(orig[t] == pre[t]);
        }
        assert forall|t: int| hi <= t < old(v)@.len() implies v@[t] == old(v)@[t] by {
            assert(v@[t] == before[t]);
            assert(before[t] == orig[t]);
            assert(orig[t] == pre[t]);
        }
    }
    j
}

/// Reorders `v` so that the entry at `k` is at its position in descending key
/// order: every key before it is at least as large, every key after it at most
/// as large, and the multiset of entries is unchanged.
pub fn quickselect(v: &mut Vec<(u64, usize)>, k: usize, rng: &mut SeededRng)
    requires
        k < old(v)@.len(),
    ensures
        final(v)@.len() == old(v)@.len(),
        final(v)@.to_multiset() == old(v)@.to_multiset(),
        partitioned_at(final(v)@, k as int),
        final(v)@[k as int].0 == kth_key_desc(old(v)@, k as int),
{
    let mut lo: usize = 0;
    let mut hi: usize = v.len();
    let ghost orig = v@;

    while hi - lo >= 2
        invariant
            lo <= k < hi <= v@.len(),
            v@.len() == orig.len(),
            v@.to_multiset() == orig.to_multiset(),
            forall|t: int, a: int| 0 <= t < lo && lo <= a < hi ==> v@[t].0 >= v@[a].0,
            forall|t: int, a: int| hi <= t < v@.len() && lo <= a < hi ==> v@[t].0 <= v@[a].0,
        decreases hi - lo,
    {
        let p = lo + rng.below(hi - lo);
        let ghost before = v@;
        let q = partition(v, lo, hi, p);
        assert forall|t: int, a: int| 0 <= t < lo && lo <= a < hi implies v@[t].0 >= v@[a].0 by {
            lemma_window_source(before, v@, lo as int, hi as int, a);
            assert(v@[t] == before[t]);
            let u = choose|u: int| lo as int <= u < hi as int && before[u] == v@[a];
            assert(before[t].0 >= before[u].0);
        }
        assert forall|t: int, a: int| hi <= t < v@.len() && lo <= a < hi implies v@[t].0
            <= v@[a].0 by {
            lemma_window_source(before, v@, lo as int, hi as int, a);
            assert(v@[t] == before[t]);
            let u = choose|u: int| lo as int <= u < hi as int && before[u] == v@[a];
            assert(before[t].0 <= before[u].0);
        }

        if k < q {
            hi = q;
        } else if k == q {
            lo = k;
            hi = k + 1;
        } else {
            lo = q + 1;
        }
    }
    proof {
        assert(lo == k && hi == k + 1);
        assert(v@.to_multiset() == old(v)@.to_multiset() && partitioned_at(v@, k as int));
        assert(exists|w: Seq<(u64, usize)>|
            (#[trigger] w.to_multiset()) == old(v)@.to_multiset() && partitioned_at(
                w,
                k as int,
            )) by {
            assert(v@.to_multiset() == old(v)@.to_multiset() && partitioned_at(v@, k as int));
        }
        let w0 = choose|w: Seq<(u64, usize)>|
            (#[trigger] w.to_multiset()) == old(v)@.to_multiset() && partitioned_at(w, k as int);
        assert(w0.to_multiset() == old(v)@.to_multiset() && partitioned_at(w0, k as int));
        old(v)@.to_multiset_ensures();
        w0.to_multiset_ensures();
        assert(w0.len() == old(v)@.len());
        lemma_selection_is_order_statistic(v@, w0, k as int);
        assert(v@[k as int].0 == w0[k as int].0);
        assert(kth_key_desc(old(v)@, k as int) == w0[k as int].0) by {
            let w1 = choose|w: Seq<(u64, usize)>|
                w.to_multiset() == old(v)@.to_multiset() && partitioned_at(w, k as int);
            assert(w1.to_multiset() == old(v)@.to_multiset() && partitioned_at(w1, k as int));
            w1.to_multiset_ensures();
            old(v)@.to_multiset_ensures();
            assert(w1.len() == old(v)@.len());
            lemma_selection_is_order_statistic(w0, w1, k as int);
        }
    }
}

} // verus!
