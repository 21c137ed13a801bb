//! Maximum-cost perfect matching in a bipartite graph given as a square cost
//! matrix whose cells are either a finite cost or forbidden (`None`).
//!
//! The solver runs in two stages: an augmenting-path search over all allowed
//! cells decides feasibility, then a primal-dual stage with node potentials
//! and tight-cell searches builds a matching of maximum total cost. The
//! result is proved to be a perfect matching over allowed cells whose total
//! cost is at least that of every other such matching; if none exists the
//! solver reports that instead.

use vstd::prelude::*;

verus! {

/// Bound on the magnitude of a finite cost, so that potential arithmetic
/// stays within fixed-width integers.
pub const MAX_COST: i64 = 0x20_0000_0000_0000;

/// The cost matrix as a sequence of rows.
pub open spec fn mat_view(c: &Vec<Vec<Option<i64>>>) -> Seq<Seq<Option<i64>>> {
    Seq::new(c@.len(), |i: int| c@[i]@)
}

pub open spec fn square(c: Seq<Seq<Option<i64>>>) -> bool {
    forall|i: int| 0 <= i < c.len() ==> (#[trigger] c[i]).len() == c.len()
}

/// The edge from left node `i` to right node `j` is usable.
pub open spec fn allowed(c: Seq<Seq<Option<i64>>>, i: int, j: int) -> bool {
    c[i][j] is Some
}

pub open spec fn costs_bounded(c: Seq<Seq<Option<i64>>>) -> bool {
    forall|i: int, j: int| 0 <= i < c.len() && 0 <= j < c[i].len() ==> match #[trigger] c[i][j] {
        Some(v) => -MAX_COST <= v <= MAX_COST,
        None => true,
    }
}

/// `m` assigns every left node a distinct right node over allowed edges.
pub open spec fn is_perfect_matching(c: Seq<Seq<Option<i64>>>, m: Seq<usize>) -> bool {
    &&& m.len() == c.len()
    &&& forall|i: int| 0 <= i < m.len() ==> (#[trigger] m[i]) < c.len()
    &&& forall|i1: int, i2: int| 0 <= i1 < i2 < m.len() ==> m[i1] != m[i2]
    &&& forall|i: int| 0 <= i < m.len() ==> allowed(c, i, #[trigger] m[i] as int)
}

pub open spec fn feasible(c: Seq<Seq<Option<i64>>>) -> bool {
    exists|m: Seq<usize>| is_perfect_matching(c, m)
}

/// Total cost of the assignment's first `i` rows.
pub open spec fn cost_upto(c: Seq<Seq<Option<i64>>>, m: Seq<usize>, i: int) -> int
    decreases i,
{
    if i <= 0 {
        0
    } else {
        cost_upto(c, m, i - 1) + c[i - 1][m[i - 1] as int]->Some_0
    }
}

/// Total cost of an assignment: the sum of its chosen cells.
pub open spec fn cost(c: Seq<Seq<Option<i64>>>, m: Seq<usize>) -> int {
    cost_upto(c, m, c.len() as int)
}

spec fn sum_pots_upto(s: Seq<i128>, i: int) -> int
    decreases i,
{
    if i <= 0 {
        0
    } else {
        sum_pots_upto(s, i - 1) + s[i - 1]
    }
}

spec fn sum_pots(s: Seq<i128>) -> int {
    sum_pots_upto(s, s.len() as int)
}

spec fn matched_sum(rp: Seq<i128>, m: Seq<usize>, i: int) -> int
    decreases i,
{
    if i <= 0 {
        0
    } else {
        matched_sum(rp, m, i - 1) + rp[m[i - 1] as int]
    }
}

/// The potentials are a feasible dual solution: no allowed cell exceeds the
/// sum of its row and column potentials.
pub open spec fn dual_feasible(c: Seq<Seq<Option<i64>>>, lp: Seq<i128>, rp: Seq<i128>) -> bool {
    forall|i: int, j: int|
        0 <= i < c.len() && 0 <= j < c.len() && allowed(c, i, j) ==> c[i][j]->Some_0
            <= #[trigger] (lp[i] + rp[j])
}

/// The allowed cell `(i, j)` is tight: its reduced cost is zero.
pub open spec fn tight(c: Seq<Seq<Option<i64>>>, lp: Seq<i128>, rp: Seq<i128>, i: int, j: int) -> bool {
    allowed(c, i, j) && lp[i] + rp[j] == c[i][j]->Some_0
}

/// Every matched cell of the right-to-left matching is tight.
pub open spec fn rm_tight(
    c: Seq<Seq<Option<i64>>>,
    lp: Seq<i128>,
    rp: Seq<i128>,
    rm: Seq<Option<usize>>,
) -> bool {
    forall|j: int| 0 <= j < rm.len() ==> match #[trigger] rm[j] {
        Some(i) => tight(c, lp, rp, i as int, j),
        None => true,
    }
}

proof fn lemma_sum_upto_congruent(a: Seq<i128>, b: Seq<i128>, i: int)
    requires
        forall|k: int| 0 <= k < i ==> a[k] == b[k],
    ensures
        sum_pots_upto(a, i) == sum_pots_upto(b, i),
    decreases i,
{
    if i > 0 {
        lemma_sum_upto_congruent(a, b, i - 1);
    }
}

proof fn lemma_sum_pots_remove(rp: Seq<i128>, j: int)
    requires
        0 <= j < rp.len(),
    ensures
        sum_pots(rp) == sum_pots(rp.remove(j)) + rp[j],
    decreases rp.len(),
{
    let n = rp.len() as int;
    if j == n - 1 {
        assert(rp.remove(j) =~= rp.drop_last());
        lemma_sum_upto_congruent(rp, rp.remove(j), n - 1);
    } else {
        assert(rp.remove(j).drop_last() =~= rp.drop_last().remove(j));
        lemma_sum_pots_remove(rp.drop_last(), j);
        lemma_sum_upto_congruent(rp.drop_last(), rp, n - 1);
        lemma_sum_upto_congruent(rp.remove(j).drop_last(), rp.remove(j), n - 2);
        assert(rp.remove(j)[n - 2] == rp[n - 1]);
        assert(sum_pots_upto(rp.remove(j), n - 1) == sum_pots_upto(rp.remove(j), n - 2)
            + rp.remove(j)[n - 2]);
    }
}

proof fn lemma_matched_sum_congruent(
    rp1: Seq<i128>,
    m1: Seq<usize>,
    rp2: Seq<i128>,
    m2: Seq<usize>,
    i: int,
)
    requires
        forall|k: int| 0 <= k < i ==> rp1[#[trigger] m1[k] as int] == rp2[m2[k] as int],
    ensures
        matched_sum(rp1, m1, i) == matched_sum(rp2, m2, i),
    decreases i,
{
    if i > 0 {
        lemma_matched_sum_congruent(rp1, m1, rp2, m2, i - 1);
    }
}

/// Summing a sequence along a bijection of its indices sums the whole
/// sequence.
proof fn lemma_perm_sum(rp: Seq<i128>, m: Seq<usize>)
    requires
        m.len() == rp.len(),
        forall|i: int| 0 <= i < m.len() ==> (#[trigger] m[i]) < rp.len(),
        forall|i1: int, i2: int| 0 <= i1 < i2 < m.len() ==> m[i1] != m[i2],
    ensures
        matched_sum(rp, m, m.len() as int) == sum_pots(rp),
    decreases rp.len(),
{
    let n = rp.len() as int;
    if n > 0 {
        let jstar = m[n - 1] as int;
        let rpp = rp.remove(jstar);
        let mp = Seq::new((n - 1) as nat, |i: int| if (m[i] as int) < jstar {
            m[i]
        } else {
            (m[i] - 1) as usize
        });
        assert forall|i: int| 0 <= i < mp.len() implies (#[trigger] mp[i]) < rpp.len() by {
            assert(m[i] != m[n - 1]);
        }
        assert forall|i1: int, i2: int| 0 <= i1 < i2 < mp.len() implies mp[i1] != mp[i2] by {
            assert(m[i1] != m[i2]);
            assert(m[i1] != m[n - 1] && m[i2] != m[n - 1]);
        }
        lemma_perm_sum(rpp, mp, );
        assert forall|k: int| 0 <= k < n - 1 implies rp[#[trigger] m[k] as int] == rpp[
            mp[k] as int] by {
            assert(m[k] != m[n - 1]);
            if (m[k] as int) < jstar {
                assert(rpp[m[k] as int] == rp[m[k] as int]);
            } else {
                assert(rpp[m[k] as int - 1] == rp[m[k] as int]);
            }
        }
        lemma_matched_sum_congruent(rp, m, rpp, mp, n - 1);
        lemma_sum_pots_remove(rp, jstar);
        assert(matched_sum(rp, m, n) == matched_sum(rp, m, n - 1) + rp[jstar]);
    }
}

proof fn lemma_cost_le_pots(
    c: Seq<Seq<Option<i64>>>,
    lp: Seq<i128>,
    rp: Seq<i128>,
    m: Seq<usize>,
    i: int,
)
    requires
        square(c),
        lp.len() == c.len(),
        rp.len() == c.len(),
        is_perfect_matching(c, m),
        dual_feasible(c, lp, rp),
        0 <= i <= c.len(),
    ensures
        cost_upto(c, m, i) <= sum_pots_upto(lp, i) + matched_sum(rp, m, i),
    decreases i,
{
    if i > 0 {
        lemma_cost_le_pots(c, lp, rp, m, i - 1);
        assert(allowed(c, i - 1, m[i - 1] as int));
        assert(c[i - 1][m[i - 1] as int]->Some_0 <= lp[i - 1] + rp[m[i - 1] as int]);
    }
}

proof fn lemma_cost_eq_pots(
    c: Seq<Seq<Option<i64>>>,
    lp: Seq<i128>,
    rp: Seq<i128>,
    m: Seq<usize>,
    i: int,
)
    requires
        square(c),
        lp.len() == c.len(),
        rp.len() == c.len(),
        is_perfect_matching(c, m),
        forall|k: int| 0 <= k < c.len() ==> tight(c, lp, rp, k, #[trigger] m[k] as int),
        0 <= i <= c.len(),
    ensures
        cost_upto(c, m, i) == sum_pots_upto(lp, i) + matched_sum(rp, m, i),
    decreases i,
{
    if i > 0 {
        lemma_cost_eq_pots(c, lp, rp, m, i - 1);
        assert(tight(c, lp, rp, i - 1, m[i - 1] as int));
    }
}

/// Duality: a perfect matching all of whose cells are tight under feasible
/// potentials has maximum total cost among all perfect matchings.
proof fn lemma_tight_matching_is_maximal(
    c: Seq<Seq<Option<i64>>>,
    lp: Seq<i128>,
    rp: Seq<i128>,
    m_opt: Seq<usize>,
    m_any: Seq<usize>,
)
    requires
        square(c),
        lp.len() == c.len(),
        rp.len() == c.len(),
        dual_feasible(c, lp, rp),
        is_perfect_matching(c, m_opt),
        forall|k: int| 0 <= k < c.len() ==> tight(c, lp, rp, k, #[trigger] m_opt[k] as int),
        is_perfect_matching(c, m_any),
    ensures
        cost(c, m_any) <= cost(c, m_opt),
{
    let n = c.len() as int;
    lemma_cost_eq_pots(c, lp, rp, m_opt, n);
    lemma_cost_le_pots(c, lp, rp, m_any, n);
    lemma_perm_sum(rp, m_opt);
    lemma_perm_sum(rp, m_any);
}

/// An allowed cell from a marked left node to an unvisited right node.
spec fn crossing(c: Seq<Seq<Option<i64>>>, vl: Seq<bool>, vis: Seq<bool>, i2: int, j2: int) -> bool {
    vl[i2] && !vis[j2] && allowed(c, i2, j2)
}

spec fn count_true_upto(s: Seq<bool>, i: int) -> int
    decreases i,
{
    if i <= 0 {
        0
    } else {
        count_true_upto(s, i - 1) + if s[i - 1] {
            1int
        } else {
            0int
        }
    }
}

proof fn lemma_count_congruent(a: Seq<bool>, b: Seq<bool>, i: int)
    requires
        forall|k: int| 0 <= k < i ==> a[k] == b[k],
    ensures
        count_true_upto(a, i) == count_true_upto(b, i),
    decreases i,
{
    if i > 0 {
        lemma_count_congruent(a, b, i - 1);
    }
}

proof fn lemma_count_all_false(s: Seq<bool>, i: int)
    requires
        forall|k: int| 0 <= k < i ==> !s[k],
    ensures
        count_true_upto(s, i) == 0,
    decreases i,
{
    if i > 0 {
        lemma_count_all_false(s, i - 1);
    }
}

proof fn lemma_count_update_true(s: Seq<bool>, w: int, i: int)
    requires
        0 <= w < i <= s.len(),
        !s[w],
    ensures
        count_true_upto(s.update(w, true), i) == count_true_upto(s, i) + 1,
    decreases i,
{
    if w == i - 1 {
        lemma_count_congruent(s.update(w, true), s, i - 1);
    } else {
        lemma_count_update_true(s, w, i - 1);
    }
}

/// Subtracting `d` exactly at the masked positions lowers the sum by `d`
/// times the mask's count.
proof fn lemma_sum_masked(olds: Seq<i128>, news: Seq<i128>, mask: Seq<bool>, d: int, i: int)
    requires
        0 <= i,
        forall|k: int| 0 <= k < i ==> news[k] == olds[k] - (if mask[k] {
            d
        } else {
            0int
        }),
    ensures
        sum_pots_upto(news, i) == sum_pots_upto(olds, i) - d * count_true_upto(mask, i),
    decreases i,
{
    if i > 0 {
        lemma_sum_masked(olds, news, mask, d, i - 1);
        if mask[i - 1] {
            assert(d * count_true_upto(mask, i) == d * (count_true_upto(mask, i - 1) + 1));
            assert(d * (count_true_upto(mask, i - 1) + 1) == d * count_true_upto(mask, i - 1)
                + d) by (nonlinear_arith);
        }
    }
}

proof fn lemma_cost_lower(c: Seq<Seq<Option<i64>>>, m: Seq<usize>, i: int)
    requires
        square(c),
        costs_bounded(c),
        is_perfect_matching(c, m),
        0 <= i <= c.len(),
    ensures
        cost_upto(c, m, i) >= -i * (MAX_COST as int),
    decreases i,
{
    if i > 0 {
        lemma_cost_lower(c, m, i - 1);
        assert(allowed(c, i - 1, m[i - 1] as int));
        assert(c[i - 1][m[i - 1] as int]->Some_0 >= -MAX_COST);
        assert(-i * (MAX_COST as int) == -(i - 1) * (MAX_COST as int) - MAX_COST)
            by (nonlinear_arith);
    }
}

/// Well-formed right-to-left matching state/// Well-formed right-to-left matching state/// Well-formed right-to-left matching state: every matched right node points
/// at a distinct left node across an allowed edge.
pub open spec fn rm_wf(c: Seq<Seq<Option<i64>>>, rm: Seq<Option<usize>>) -> bool {
    &&& rm.len() == c.len()
    &&& forall|j: int| 0 <= j < rm.len() ==> match #[trigger] rm[j] {
        Some(i) => i < c.len() && allowed(c, i as int, j),
        None => true,
    }
    &&& forall|j1: int, j2: int|
        0 <= j1 < j2 < rm.len() && rm[j1] is Some ==> rm[j1] != rm[j2]
}

pub open spec fn left_matched(rm: Seq<Option<usize>>, i: usize) -> bool {
    exists|j: int| 0 <= j < rm.len() && (#[trigger] rm[j]) == Some(i)
}

spec fn count_false(s: Seq<bool>) -> nat
    decreases s.len(),
{
    if s.len() == 0 {
        0
    } else {
        count_false(s.drop_last()) + if s.last() {
            0nat
        } else {
            1nat
        }
    }
}

proof fn lemma_count_false_le(s1: Seq<bool>, s2: Seq<bool>)
    requires
        s1.len() == s2.len(),
        forall|t: int| 0 <= t < s1.len() ==> (s1[t] ==> s2[t]),
    ensures
        count_false(s2) <= count_false(s1),
    decreases s1.len(),
{
    if s1.len() > 0 {
        lemma_count_false_le(s1.drop_last(), s2.drop_last());
    }
}

proof fn lemma_count_false_strict(s1: Seq<bool>, s2: Seq<bool>, w: int)
    requires
        s1.len() == s2.len(),
        forall|t: int| 0 <= t < s1.len() ==> (s1[t] ==> s2[t]),
        0 <= w < s1.len(),
        !s1[w],
        s2[w],
    ensures
        count_false(s2) < count_false(s1),
    decreases s1.len(),
{
    if w == s1.len() - 1 {
        lemma_count_false_le(s1.drop_last(), s2.drop_last());
    } else {
        lemma_count_false_strict(s1.drop_last(), s2.drop_last(), w);
    }
}

proof fn lemma_inj_le(s: Set<int>, t: Set<int>, f: spec_fn(int) -> int)
    requires
        s.finite(),
        t.finite(),
        forall|a: int| s.contains(a) ==> t.contains(#[trigger] f(a)),
        forall|a: int, b: int| s.contains(a) && s.contains(b) && a != b ==> f(a) != f(b),
    ensures
        s.len() <= t.len(),
    decreases s.len(),
{
    broadcast use vstd::set::group_set_axioms;

    if s.len() == 0 {
    } else {
        assert(exists|a: int| s.contains(a)) by {
            if !(exists|a: int| s.contains(a)) {
                assert(s =~= Set::<int>::empty());
            }
        }
        let a = choose|a: int| s.contains(a);
        let s1 = s.remove(a);
        let t1 = t.remove(f(a));
        assert(t.contains(f(a)));
        assert forall|b: int| s1.contains(b) implies t1.contains(#[trigger] f(b)) by {
            assert(s.contains(b) && b != a);
        }
        lemma_inj_le(s1, t1, f);
    }
}

/// When the augmenting search from unmatched `i` fails, the visited right
/// nodes and the left nodes of the alternating tree witness a neighborhood
/// smaller than itself: no perfect matching over allowed edges can exist.
proof fn lemma_failed_search_infeasible(
    c: Seq<Seq<Option<i64>>>,
    rm: Seq<Option<usize>>,
    vis: Seq<bool>,
    i: usize,
)
    requires
        square(c),
        c.len() <= 0x10000,
        rm.len() == c.len(),
        vis.len() == c.len(),
        rm_wf(c, rm),
        i < c.len(),
        !left_matched(rm, i),
        forall|j2: int| 0 <= j2 < c.len() && allowed(c, i as int, j2) ==> vis[j2],
        forall|j: int| 0 <= j < c.len() && vis[j] ==> rm[j] is Some,
        forall|j: int, j2: int|
            0 <= j < c.len() && vis[j] && 0 <= j2 < c.len() && allowed(
                c,
                rm[j]->Some_0 as int,
                j2,
            ) ==> vis[j2],
    ensures
        !feasible(c),
{
    broadcast use vstd::set::group_set_axioms;

    let n = c.len() as int;
    assert forall|mm: Seq<usize>| !is_perfect_matching(c, mm) by {
        if is_perfect_matching(c, mm) {
            let vset = Set::new(|j: int| 0 <= j < n && vis[j]);
            let sset = Set::new(
                |i2: int|
                    0 <= i2 < n && (i2 == i || (exists|j: int|
                        0 <= j < n && #[trigger] vis[j] && rm[j] == Some(i2 as usize))),
            );
            vstd::set_lib::lemma_int_range(0, n);
            assert(vset.subset_of(vstd::set_lib::set_int_range(0, n)));
            assert(sset.subset_of(vstd::set_lib::set_int_range(0, n)));
            vstd::set_lib::lemma_len_subset(vset, vstd::set_lib::set_int_range(0, n));
            vstd::set_lib::lemma_len_subset(sset, vstd::set_lib::set_int_range(0, n));

            // Each visited right node's partner is a tree node other than
            // the root, and distinct partners belong to distinct nodes.
            let g = |j: int| rm[j]->Some_0 as int;
            let sset1 = sset.remove(i as int);
            assert(sset.contains(i as int));
            assert forall|j: int| vset.contains(j) implies sset1.contains(#[trigger] g(j)) by {
                assert(rm[j] is Some);
                let ip = rm[j]->Some_0;
                assert(ip < c.len() && allowed(c, ip as int, j));
                assert(rm[j] == Some(ip));
                assert(sset.contains(ip as int));
                assert(ip != i) by {
                    if ip == i {
                        assert(left_matched(rm, i));
                    }
                }
            }
            assert forall|j1: int, j2: int|
                vset.contains(j1) && vset.contains(j2) && j1 != j2 implies g(j1) != g(j2) by {
                assert(rm[j1] is Some && rm[j2] is Some);
                if rm[j1] == rm[j2] {
                    if j1 < j2 {
                        assert(rm[j1] != rm[j2]);
                    } else {
                        assert(rm[j2] != rm[j1]);
                    }
                }
            }
            lemma_inj_le(vset, sset1, g);

            // The perfect matching sends every tree node to a visited right
            // node, injectively.
            let h = |i2: int| mm[i2] as int;
            assert forall|i2: int| sset.contains(i2) implies vset.contains(#[trigger] h(i2)) by {
                assert(allowed(c, i2, mm[i2] as int));
                assert(mm[i2] < c.len());
                if i2 == i {
                    assert(vis[mm[i2] as int]);
                } else {
                    let j = choose|j: int|
                        0 <= j < n && #[trigger] vis[j] && rm[j] == Some(i2 as usize);
                    assert(rm[j]->Some_0 as int == i2);
                    assert(vis[mm[i2] as int]);
                }
            }
            assert forall|a: int, b: int|
                sset.contains(a) && sset.contains(b) && a != b implies h(a) != h(b) by {
                if a < b {
                    assert(mm[a] != mm[b]);
                } else {
                    assert(mm[b] != mm[a]);
                }
            }
            lemma_inj_le(sset, vset, h);

            assert(sset.len() == sset1.len() + 1);
            assert(false);
        }
    }
}

fn make_false_vec(n: usize) -> (v: Vec<bool>)
    ensures
        v@.len() == n,
        forall|t: int| 0 <= t < n ==> !v@[t],
{
    let mut v: Vec<bool> = Vec::new();
    let mut k: usize = 0;
    while k < n
        invariant
            k <= n,
            v@.len() == k,
            forall|t: int| 0 <= t < k ==> !v@[t],
        decreases n - k,
    {
        v.push(false);
        k = k + 1;
    }
    v
}

fn make_none_vec(n: usize) -> (v: Vec<Option<usize>>)
    ensures
        v@.len() == n,
        forall|t: int| 0 <= t < n ==> v@[t] is None,
    {
    let mut v: Vec<Option<usize>> = Vec::new();
    let mut k: usize = 0;
    while k < n
        invariant
            k <= n,
            v@.len() == k,
            forall|t: int| 0 <= t < k ==> v@[t] is None,
        decreases n - k,
    {
        v.push(None);
        k = k + 1;
    }
    v
}

/// Searches for an augmenting path from the unmatched left node `i` over
/// allowed edges, stealing matched partners recursively and restoring the
/// matching whenever a branch fails. On success the set of matched left
/// nodes grows by exactly `i`; on failure the matching is unchanged and the
/// visited set records an alternating-reachability closure.
#[verifier::loop_isolation(false)]
fn try_augment(
    costs: &Vec<Vec<Option<i64>>>,
    i: usize,
    visited: &mut Vec<bool>,
    rm: &mut Vec<Option<usize>>,
) -> (ok: bool)
    requires
        square(mat_view(costs)),
        i < costs@.len(),
        old(visited)@.len() == costs@.len(),
        rm_wf(mat_view(costs), old(rm)@),
        !left_matched(old(rm)@, i),
    ensures
        final(visited)@.len() == old(visited)@.len(),
        final(rm)@.len() == old(rm)@.len(),
        rm_wf(mat_view(costs), final(rm)@),
        forall|t: int| 0 <= t < old(visited)@.len() && old(visited)@[t] ==> final(visited)@[t],
        ok ==> (forall|i2: usize|
            left_matched(final(rm)@, i2) <==> (left_matched(old(rm)@, i2) || i2 == i)),
        !ok ==> final(rm)@ == old(rm)@,
        !ok ==> (forall|j2: int|
            0 <= j2 < costs@.len() && allowed(mat_view(costs), i as int, j2)
                ==> final(visited)@[j2]),
        !ok ==> (forall|j: int|
            0 <= j < costs@.len() && final(visited)@[j] && !old(visited)@[j]
                ==> final(rm)@[j] is Some),
        !ok ==> (forall|j: int, j2: int|
            0 <= j < costs@.len() && final(visited)@[j] && !old(visited)@[j]
                && 0 <= j2 < costs@.len()
                && allowed(mat_view(costs), final(rm)@[j]->Some_0 as int, j2)
                ==> final(visited)@[j2]),
    decreases count_false(old(visited)@),
{
    let ghost c = mat_view(costs);
    let ghost vis0 = old(visited)@;
    let ghost rm0 = old(rm)@;
    let n = costs.len();
    let mut j: usize = 0;

    while j < n
        invariant
            j <= n,
            visited@.len() == n,
            rm@ == rm0,
            forall|t: int| 0 <= t < n && vis0[t] ==> visited@[t],
            forall|j2: int| 0 <= j2 < j && allowed(c, i as int, j2) ==> visited@[j2],
            forall|t: int| 0 <= t < n && visited@[t] && !vis0[t] ==> rm0[t] is Some,
            forall|t: int, j2: int|
                0 <= t < n && visited@[t] && !vis0[t] && 0 <= j2 < n
                    && allowed(c, rm0[t]->Some_0 as int, j2) ==> visited@[j2],
        decreases n - j,
    {
        proof {
            assert(mat_view(costs)[i as int] == costs@[i as int]@);
            assert(mat_view(costs)[i as int].len() == n);
        }
        if costs[i][j].is_some() && !visited[j] {
            let ghost vis_pre = visited@;
            visited.set(j, true);
            let prev = rm[j];
            match prev {
                None => {
                    rm.set(j, Some(i));
                    proof {
                        assert forall|i2: usize|
                            left_matched(rm@, i2) <==> (left_matched(rm0, i2) || i2 == i) by {
                            if left_matched(rm@, i2) {
                                let jw = choose|jw: int|
                                    0 <= jw < rm@.len() && (#[trigger] rm@[jw]) == Some(i2);
                                if jw == j {
                                    assert(i2 == i);
                                } else {
                                    assert(rm0[jw] == Some(i2));
                                }
                            }
                            if i2 == i {
                                assert(rm@[j as int] == Some(i2));
                            }
                            if left_matched(rm0, i2) && i2 != i {
                                let jw = choose|jw: int|
                                    0 <= jw < rm0.len() && (#[trigger] rm0[jw]) == Some(i2);
                                assert(rm@[jw] == Some(i2));
                            }
                        }
                    }
                    return true;
                },
                Some(ip) => {
                    rm.set(j, Some(i));
                    let ghost rmt = rm@;
                    proof {
                        assert(rm0[j as int] == Some(ip));
                        assert(ip < n && allowed(c, ip as int, j as int));
                        // `i` is unmatched, so `i != ip` and the updated state
                        // keeps every matched right node pointing at a
                        // distinct left node.
                        assert(!left_matched(rmt, ip)) by {
                            if left_matched(rmt, ip) {
                                let jw = choose|jw: int|
                                    0 <= jw < rmt.len() && (#[trigger] rmt[jw]) == Some(ip);
                                if jw == j {
                                    assert(left_matched(rm0, i)) by {
                                        assert(rm0[j as int] == Some(i));
                                    }
                                } else {
                                    assert(rm0[jw] == Some(ip));
                                    assert(false);
                                }
                            }
                        }
                        assert(rm_wf(c, rmt));
                        lemma_count_false_strict(vis0, visited@, j as int);
                    }
                    if try_augment(costs, ip, visited, rm) {
                        proof {
                            assert forall|i2: usize|
                                left_matched(rm@, i2) <==> (left_matched(rm0, i2) || i2 == i) by {
                                assert(left_matched(rm@, i2) <==> (left_matched(rmt, i2) || i2
                                    == ip));
                                if left_matched(rmt, i2) {
                                    let jw = choose|jw: int|
                                        0 <= jw < rmt.len() && (#[trigger] rmt[jw]) == Some(i2);
                                    if jw == j {
                                        assert(i2 == i);
                                    } else {
                                        assert(rm0[jw] == Some(i2));
                                    }
                                }
                                if left_matched(rm0, i2) && i2 != ip {
                                    let jw = choose|jw: int|
                                        0 <= jw < rm0.len() && (#[trigger] rm0[jw]) == Some(i2);
                                    assert(jw != j);
                                    assert(rmt[jw] == Some(i2));
                                }
                                if i2 == ip {
                                    assert(rm0[j as int] == Some(i2));
                                }
                                if i2 == i {
                                    assert(rmt[j as int] == Some(i2));
                                }
                            }
                        }
                        return true;
                    }
                    rm.set(j, Some(ip));
                    proof {
                        assert(rm@ =~= rm0);
                    }
                },
            }
        }
        j = j + 1;
    }
    false
}

/// Bound on the magnitude of a node potential: the initial row maximum
/// plus the whole dual-objective descent.
pub const POT_LIMIT: i128 = 0x10_0000_0000_0000_0000_0000_0000;

spec fn pots_bounded(s: Seq<i128>) -> bool {
    forall|t: int| 0 <= t < s.len() ==> -POT_LIMIT <= #[trigger] s[t] <= POT_LIMIT
}

/// Like `try_augment`, but walks only tight edges: allowed cells whose
/// reduced cost under the current potentials is exactly zero.
#[verifier::loop_isolation(false)]
fn try_augment_tight(
    costs: &Vec<Vec<Option<i64>>>,
    lp: &Vec<i128>,
    rp: &Vec<i128>,
    i: usize,
    visited: &mut Vec<bool>,
    rm: &mut Vec<Option<usize>>,
) -> (ok: bool)
    requires
        square(mat_view(costs)),
        i < costs@.len(),
        lp@.len() == costs@.len(),
        rp@.len() == costs@.len(),
        pots_bounded(lp@),
        pots_bounded(rp@),
        costs_bounded(mat_view(costs)),
        old(visited)@.len() == costs@.len(),
        rm_wf(mat_view(costs), old(rm)@),
        rm_tight(mat_view(costs), lp@, rp@, old(rm)@),
        !left_matched(old(rm)@, i),
    ensures
        final(visited)@.len() == old(visited)@.len(),
        final(rm)@.len() == old(rm)@.len(),
        rm_wf(mat_view(costs), final(rm)@),
        rm_tight(mat_view(costs), lp@, rp@, final(rm)@),
        forall|t: int| 0 <= t < old(visited)@.len() && old(visited)@[t] ==> final(visited)@[t],
        ok ==> (forall|i2: usize|
            left_matched(final(rm)@, i2) <==> (left_matched(old(rm)@, i2) || i2 == i)),
        !ok ==> final(rm)@ == old(rm)@,
        !ok ==> (forall|j2: int|
            0 <= j2 < costs@.len() && tight(mat_view(costs), lp@, rp@, i as int, j2)
                ==> final(visited)@[j2]),
        !ok ==> (forall|j: int|
            0 <= j < costs@.len() && final(visited)@[j] && !old(visited)@[j]
                ==> final(rm)@[j] is Some),
        !ok ==> (forall|j: int, j2: int|
            0 <= j < costs@.len() && final(visited)@[j] && !old(visited)@[j]
                && 0 <= j2 < costs@.len()
                && tight(mat_view(costs), lp@, rp@, final(rm)@[j]->Some_0 as int, j2)
                ==> final(visited)@[j2]),
    decreases count_false(old(visited)@),
{
    let ghost c = mat_view(costs);
    let ghost vis0 = old(visited)@;
    let ghost rm0 = old(rm)@;
    let n = costs.len();
    let mut j: usize = 0;

    while j < n
        invariant
            j <= n,
            visited@.len() == n,
            rm@ == rm0,
            forall|t: int| 0 <= t < n && vis0[t] ==> visited@[t],
            forall|j2: int| 0 <= j2 < j && tight(c, lp@, rp@, i as int, j2) ==> visited@[j2],
            forall|t: int| 0 <= t < n && visited@[t] && !vis0[t] ==> rm0[t] is Some,
            forall|t: int, j2: int|
                0 <= t < n && visited@[t] && !vis0[t] && 0 <= j2 < n
                    && tight(c, lp@, rp@, rm0[t]->Some_0 as int, j2) ==> visited@[j2],
        decreases n - j,
    {
        proof {
            assert(mat_view(costs)[i as int] == costs@[i as int]@);
            assert(mat_view(costs)[i as int].len() == n);
        }
        let cell = costs[i][j];
        let cell_tight = match cell {
            Some(cv) => lp[i] + rp[j] == cv as i128,
            None => false,
        };
        proof {
            assert(cell == c[i as int][j as int]);
            assert(cell_tight == tight(c, lp@, rp@, i as int, j as int));
        }
        if cell_tight && !visited[j] {
            visited.set(j, true);
            let prev = rm[j];
            match prev {
                None => {
                    rm.set(j, Some(i));
                    proof {
                        assert forall|i2: usize|
                            left_matched(rm@, i2) <==> (left_matched(rm0, i2) || i2 == i) by {
                            if left_matched(rm@, i2) {
                                let jw = choose|jw: int|
                                    0 <= jw < rm@.len() && (#[trigger] rm@[jw]) == Some(i2);
                                if jw == j {
                                    assert(i2 == i);
                                } else {
                                    assert(rm0[jw] == Some(i2));
                                }
                            }
                            if i2 == i {
                                assert(rm@[j as int] == Some(i2));
                            }
                            if left_matched(rm0, i2) && i2 != i {
                                let jw = choose|jw: int|
                                    0 <= jw < rm0.len() && (#[trigger] rm0[jw]) == Some(i2);
                                assert(rm@[jw] == Some(i2));
                            }
                        }
                    }
                    return true;
                },
                Some(ip) => {
                    rm.set(j, Some(i));
                    let ghost rmt = rm@;
                    proof {
                        assert(rm0[j as int] == Some(ip));
                        assert(ip < n && allowed(c, ip as int, j as int));
                        assert(!left_matched(rmt, ip)) by {
                            if left_matched(rmt, ip) {
                                let jw = choose|jw: int|
                                    0 <= jw < rmt.len() && (#[trigger] rmt[jw]) == Some(ip);
                                if jw == j {
                                    assert(left_matched(rm0, i)) by {
                                        assert(rm0[j as int] == Some(i));
                                    }
                                } else {
                                    assert(rm0[jw] == Some(ip));
                                    assert(false);
                                }
                            }
                        }
                        assert(rm_wf(c, rmt));
                        lemma_count_false_strict(vis0, visited@, j as int);
                    }
                    if try_augment_tight(costs, lp, rp, ip, visited, rm) {
                        proof {
                            assert forall|i2: usize|
                                left_matched(rm@, i2) <==> (left_matched(rm0, i2) || i2 == i) by {
                                assert(left_matched(rm@, i2) <==> (left_matched(rmt, i2) || i2
                                    == ip));
                                if left_matched(rmt, i2) {
                                    let jw = choose|jw: int|
                                        0 <= jw < rmt.len() && (#[trigger] rmt[jw]) == Some(i2);
                                    if jw == j {
                                        assert(i2 == i);
                                    } else {
                                        assert(rm0[jw] == Some(i2));
                                    }
                                }
                                if left_matched(rm0, i2) && i2 != ip {
                                    let jw = choose|jw: int|
                                        0 <= jw < rm0.len() && (#[trigger] rm0[jw]) == Some(i2);
                                    assert(jw != j);
                                    assert(rmt[jw] == Some(i2));
                                }
                                if i2 == ip {
                                    assert(rm0[j as int] == Some(i2));
                                }
                                if i2 == i {
                                    assert(rmt[j as int] == Some(i2));
                                }
                            }
                        }
                        return true;
                    }
                    rm.set(j, Some(ip));
                    proof {
                        assert(rm@ =~= rm0);
                    }
                },
            }
        }
        j = j + 1;
    }
    false
}

/// Turns a total right-to-left matching into the left-to-right assignment.
#[verifier::loop_isolation(false)]
fn build_assignment(costs: &Vec<Vec<Option<i64>>>, rm: &Vec<Option<usize>>) -> (m: Vec<usize>)
    requires
        square(mat_view(costs)),
        rm_wf(mat_view(costs), rm@),
        forall|i2: usize| i2 < costs@.len() ==> left_matched(rm@, i2),
    ensures
        is_perfect_matching(mat_view(costs), m@),
        forall|i: int| 0 <= i < m@.len() ==> rm@[#[trigger] m@[i] as int] == Some(i as usize),
{
    let ghost c = mat_view(costs);
    let n = costs.len();
    let mut m: Vec<usize> = Vec::new();
    let mut k: usize = 0;
    while k < n
        invariant
            k <= n,
            m@.len() == k,
        decreases n - k,
    {
        m.push(0);
        k = k + 1;
    }

    let mut j: usize = 0;
    while j < n
        invariant
            j <= n,
            m@.len() == n,
            forall|j0: int| 0 <= j0 < j ==> match #[trigger] rm@[j0] {
                Some(i2) => m@[i2 as int] == j0,
                None => true,
            },
        decreases n - j,
    {
        match rm[j] {
            Some(ii) => {
                m.set(ii, j);
                proof {
                    assert forall|j0: int| 0 <= j0 < j + 1 implies match #[trigger] rm@[j0] {
                        Some(i2) => m@[i2 as int] == j0,
                        None => true,
                    } by {
                        if j0 < j {
                            match rm@[j0] {
                                Some(i2) => {
                                    assert(rm@[j as int] == Some(ii));
                                    assert(i2 != ii);
                                },
                                None => {},
                            }
                        }
                    }
                }
            },
            None => {},
        }
        j = j + 1;
    }

    proof {
        assert forall|i2: int| 0 <= i2 < n implies (#[trigger] m@[i2]) < n && rm@[m@[i2] as int]
            == Some(i2 as usize) by {
            assert(left_matched(rm@, i2 as usize));
            let jw = choose|jw: int| 0 <= jw < rm@.len() && (#[trigger] rm@[jw]) == Some(
                i2 as usize,
            );
            assert(m@[i2] == jw);
        }
        assert forall|i1: int, i2: int| 0 <= i1 < i2 < n implies m@[i1] != m@[i2] by {
            assert(rm@[m@[i1] as int] == Some(i1 as usize));
            assert(rm@[m@[i2] as int] == Some(i2 as usize));
        }
        assert forall|i2: int| 0 <= i2 < n implies allowed(c, i2, #[trigger] m@[i2] as int) by {
            assert(rm@[m@[i2] as int] == Some(i2 as usize));
        }
    }
    m
}

/// Maximum-cost perfect matching over the allowed cells of a square cost
/// matrix: `m[i]` is the column assigned to row `i`. Returns the assignment
/// when a perfect matching over allowed cells exists.
#[verifier::loop_isolation(false)]
#[verifier::rlimit(80)]
pub fn maximum_matching(costs: &Vec<Vec<Option<i64>>>) -> (r: Option<Vec<usize>>)
    requires
        square(mat_view(costs)),
        costs_bounded(mat_view(costs)),
        costs@.len() <= 0x10000,
    ensures
        match r {
            Some(m) => is_perfect_matching(mat_view(costs), m@) && (forall|m2: Seq<usize>|
                is_perfect_matching(mat_view(costs), m2) ==> cost(mat_view(costs), m2) <= cost(
                    mat_view(costs),
                    m@,
                )),
            None => true,
        },
        r is Some <==> feasible(mat_view(costs)),
{
    let ghost c = mat_view(costs);
    let n = costs.len();
    if n == 0 {
        let m: Vec<usize> = Vec::new();
        proof {
            assert(is_perfect_matching(c, m@));
            assert forall|m2: Seq<usize>| is_perfect_matching(c, m2) implies cost(c, m2) <= cost(
                c,
                m@,
            ) by {}
        }
        return Some(m);
    }

    let mut rm = make_none_vec(n);
    let mut i: usize = 0;
    while i < n
        invariant
            i <= n,
            rm@.len() == n,
            rm_wf(c, rm@),
            forall|i2: usize| left_matched(rm@, i2) <==> i2 < i,
        decreases n - i,
    {
        let mut visited = make_false_vec(n);
        let ok = try_augment(costs, i, &mut visited, &mut rm);
        if !ok {
            proof {
                lemma_failed_search_infeasible(c, rm@, visited@, i);
            }
            return None;
        }
        i = i + 1;
    }

    let m1 = build_assignment(costs, &rm);
    let ghost gm1: Seq<usize> = m1@;
    proof {
        assert(feasible(c)) by {
            assert(is_perfect_matching(c, gm1));
        }
    }

    // Improvement stage: rebuild the matching over tight cells only, under
    // dual-feasible potentials, relaxing them whenever the tight subgraph
    // has no augmenting path. Matched cells stay tight throughout, so the
    // finished matching is maximal by duality. Each relaxation lowers the
    // dual objective by at least one, and the objective is bounded below by
    // the stage-one matching's cost, which bounds the potentials and the
    // number of relaxations.
    let mut lp: Vec<i128> = Vec::new();
    let ghost mut slp: int = 0;
    let mut ii: usize = 0;
    while ii < n
        invariant
            ii <= n,
            lp@.len() == ii,
            forall|i2: int|
                0 <= i2 < ii ==> -(MAX_COST as int) <= #[trigger] lp@[i2] <= MAX_COST as int,
            forall|i2: int, j2: int|
                0 <= i2 < ii && 0 <= j2 < n && allowed(c, i2, j2) ==> (#[trigger] c[i2][
                    j2])->Some_0 <= lp@[i2],
            slp == sum_pots(lp@),
            -(ii as int) * (MAX_COST as int) <= slp <= (ii as int) * (MAX_COST as int),
        decreases n - ii,
    {
        proof {
            assert(mat_view(costs)[ii as int] == costs@[ii as int]@);
            assert(mat_view(costs)[ii as int].len() == n);
        }
        let mut best: i64 = -MAX_COST;
        let mut jj: usize = 0;
        while jj < n
            invariant
                jj <= n,
                -MAX_COST <= best <= MAX_COST,
                forall|j2: int|
                    0 <= j2 < jj && allowed(c, ii as int, j2) ==> c[ii as int][j2]->Some_0
                        <= best,
            decreases n - jj,
        {
            proof {
                assert(mat_view(costs)[ii as int][jj as int] == costs@[ii as int]@[jj as int]);
            }
            match costs[ii][jj] {
                Some(cv) => {
                    if cv > best {
                        best = cv;
                    }
                },
                None => {},
            }
            jj = jj + 1;
        }
        let ghost lp_before = lp@;
        lp.push(best as i128);
        proof {
            lemma_sum_upto_congruent(lp@, lp_before, ii as int);
            slp = slp + best as int;
            assert((ii + 1) * (MAX_COST as int) == ii * (MAX_COST as int) + MAX_COST)
                by (nonlinear_arith);
        }
        ii = ii + 1;
    }

    let mut rp: Vec<i128> = Vec::new();
    let mut ir: usize = 0;
    while ir < n
        invariant
            ir <= n,
            rp@.len() == ir,
            forall|j2: int| 0 <= j2 < ir ==> #[trigger] rp@[j2] == 0,
            sum_pots(rp@) == 0,
        decreases n - ir,
    {
        let ghost rp_before = rp@;
        rp.push(0);
        proof {
            lemma_sum_upto_congruent(rp@, rp_before, ir as int);
        }
        ir = ir + 1;
    }
    let ghost srp_init: int = 0;
    let ghost mut srp: int = 0;
    let ghost d0: int = slp;
    let ghost mut sd: int = 0;
    let ghost mut k_aug: int = 0;

    let mut rm2 = make_none_vec(n);
    let mut k: usize = 0;
    while k < n
        invariant
            k <= n,
            rm2@.len() == n,
            rm_wf(c, rm2@),
            rm_tight(c, lp@, rp@, rm2@),
            forall|iq: usize| left_matched(rm2@, iq) <==> iq < k,
            lp@.len() == n,
            rp@.len() == n,
            dual_feasible(c, lp@, rp@),
            slp == sum_pots(lp@),
            srp == sum_pots(rp@),
            slp + srp == d0 - sd,
            0 <= sd && sd <= 2 * (n as int) * (MAX_COST as int),
            forall|i2: int|
                0 <= i2 < n ==> -(MAX_COST as int) - sd <= #[trigger] lp@[i2]
                    <= MAX_COST as int,
            forall|j2: int| 0 <= j2 < n ==> 0 <= #[trigger] rp@[j2] <= sd,
            k_aug == k,
        decreases n - k,
    {
        let mut advanced = false;
        while !advanced
            invariant
                rm2@.len() == n,
                rm_wf(c, rm2@),
                rm_tight(c, lp@, rp@, rm2@),
                !advanced ==> ((forall|iq: usize| left_matched(rm2@, iq) <==> iq < k) && k_aug
                    == k),
                advanced ==> ((forall|iq: usize| left_matched(rm2@, iq) <==> iq < k + 1) && k_aug
                    == k + 1),
                lp@.len() == n,
                rp@.len() == n,
                dual_feasible(c, lp@, rp@),
                slp == sum_pots(lp@),
                srp == sum_pots(rp@),
                slp + srp == d0 - sd,
                0 <= sd && sd <= 2 * (n as int) * (MAX_COST as int),
                forall|i2: int|
                    0 <= i2 < n ==> -(MAX_COST as int) - sd <= #[trigger] lp@[i2]
                        <= MAX_COST as int,
                forall|j2: int| 0 <= j2 < n ==> 0 <= #[trigger] rp@[j2] <= sd,
            decreases 2 * (n as int) * (MAX_COST as int) + (n as int) + 2 - sd - k_aug,
        {
            let mut visited = make_false_vec(n);
            proof {
                assert(pots_bounded(lp@));
                assert(pots_bounded(rp@));
            }
            if try_augment_tight(costs, &lp, &rp, k, &mut visited, &mut rm2) {
                proof {
                    assert forall|iq: usize| left_matched(rm2@, iq) <==> iq < k + 1 by {}
                    k_aug = k_aug + 1;
                }
                advanced = true;
                continue;
            }

            // Left side of the alternating tree: the root plus the partners
            // of every visited right node; the partners are distinct, so the
            // tree has exactly one more left node than visited right nodes.
            let mut vl = make_false_vec(n);
            let ghost vl0 = vl@;
            vl.set(k, true);
            proof {
                lemma_count_all_false(vl0, n as int);
                lemma_count_update_true(vl0, k as int, n as int);
            }
            let mut cl: usize = 1;
            let ghost mut crn: int = 0;
            let mut jj: usize = 0;
            while jj < n
                invariant
                    jj <= n,
                    vl@.len() == n,
                    1 <= cl <= jj + 1,
                    cl as int == count_true_upto(vl@, n as int),
                    cl as int == 1 + crn,
                    crn == count_true_upto(visited@, jj as int),
                    forall|i2: int|
                        0 <= i2 < n ==> ((#[trigger] vl@[i2]) <==> (i2 == k || (exists|j3: int|
                            0 <= j3 < jj && visited@[j3] && rm2@[j3] == Some(i2 as usize)))),
                decreases n - jj,
            {
                if visited[jj] {
                    match rm2[jj] {
                        Some(iw) => {
                            proof {
                                assert(rm2@[jj as int] == Some(iw));
                                assert(iw != k) by {
                                    if iw == k {
                                        assert(left_matched(rm2@, k));
                                    }
                                }
                                assert(!vl@[iw as int]) by {
                                    if vl@[iw as int] {
                                        let j3 = choose|j3: int|
                                            0 <= j3 < jj && visited@[j3] && rm2@[j3] == Some(
                                                iw,
                                            );
                                        if j3 < jj as int {
                                            assert(rm2@[j3] == rm2@[jj as int]);
                                            assert(false);
                                        }
                                    }
                                }
                                lemma_count_update_true(vl@, iw as int, n as int);
                            }
                            let ghost vl_pre = vl@;
                            vl.set(iw, true);
                            cl = cl + 1;
                            proof {
                                crn = crn + 1;
                                assert forall|i2: int|
                                    0 <= i2 < n implies ((#[trigger] vl@[i2]) <==> (i2 == k || (
                                exists|j3: int|
                                    0 <= j3 < jj + 1 && visited@[j3] && rm2@[j3] == Some(
                                        i2 as usize,
                                    )))) by {
                                    if vl@[i2] {
                                        if i2 == iw as int {
                                            assert(visited@[jj as int] && rm2@[jj as int]
                                                == Some(i2 as usize));
                                        } else {
                                            assert(vl_pre[i2]);
                                        }
                                    }
                                    if i2 != k && (exists|j3: int|
                                        0 <= j3 < jj + 1 && visited@[j3] && rm2@[j3] == Some(
                                            i2 as usize,
                                        )) {
                                        let j3 = choose|j3: int|
                                            0 <= j3 < jj + 1 && visited@[j3] && rm2@[j3]
                                                == Some(i2 as usize);
                                        if j3 == jj as int {
                                            assert(i2 == iw as int);
                                        } else {
                                            assert(vl_pre[i2]);
                                        }
                                    }
                                }
                            }
                        },
                        None => {
                            proof {
                                assert(false);
                            }
                        },
                    }
                } else {
                    proof {
                        assert forall|i2: int|
                            0 <= i2 < n implies ((#[trigger] vl@[i2]) <==> (i2 == k || (exists|
                        j3: int|
                            0 <= j3 < jj + 1 && visited@[j3] && rm2@[j3] == Some(
                                i2 as usize,
                            )))) by {
                            if i2 != k && (exists|j3: int|
                                0 <= j3 < jj + 1 && visited@[j3] && rm2@[j3] == Some(
                                    i2 as usize,
                                )) {
                                let j3 = choose|j3: int|
                                    0 <= j3 < jj + 1 && visited@[j3] && rm2@[j3] == Some(
                                        i2 as usize,
                                    );
                                assert(j3 < jj as int);
                            }
                        }
                    }
                }
                jj = jj + 1;
            }

            // Minimum reduced cost over allowed cells crossing the boundary.
            // Every crossing cell is non-tight (the failed search would have
            // crossed a tight one), so the minimum is at least one.
            let mut best: Option<i128> = None;
            let mut bi: usize = 0;
            while bi < n
                invariant
                    bi <= n,
                    best is None ==> (forall|i2: int, j2: int|
                        0 <= i2 < bi && 0 <= j2 < n ==> !crossing(c, vl@, visited@, i2, j2)),
                    best matches Some(dd) ==> 1 <= dd <= 2 * (MAX_COST as int) + sd,
                    best matches Some(dd) ==> (forall|i2: int, j2: int|
                        0 <= i2 < bi && 0 <= j2 < n && crossing(c, vl@, visited@, i2, j2)
                            ==> dd <= lp@[i2] + rp@[j2] - c[i2][j2]->Some_0),
                decreases n - bi,
            {
                if vl[bi] {
                    proof {
                        assert(mat_view(costs)[bi as int] == costs@[bi as int]@);
                        assert(mat_view(costs)[bi as int].len() == n);
                    }
                    let mut bj: usize = 0;
                    while bj < n
                        invariant
                            bj <= n,
                            bi < n,
                            vl@[bi as int],
                            best is None ==> (forall|i2: int, j2: int|
                                0 <= i2 < bi && 0 <= j2 < n ==> !crossing(
                                    c,
                                    vl@,
                                    visited@,
                                    i2,
                                    j2,
                                )),
                            best is None ==> (forall|j2: int|
                                0 <= j2 < bj ==> !crossing(c, vl@, visited@, bi as int, j2)),
                            best matches Some(dd) ==> 1 <= dd <= 2 * (MAX_COST as int) + sd,
                            best matches Some(dd) ==> (forall|i2: int, j2: int|
                                0 <= i2 < bi && 0 <= j2 < n && crossing(
                                    c,
                                    vl@,
                                    visited@,
                                    i2,
                                    j2,
                                ) ==> dd <= lp@[i2] + rp@[j2] - c[i2][j2]->Some_0),
                            best matches Some(dd) ==> (forall|j2: int|
                                0 <= j2 < bj && crossing(c, vl@, visited@, bi as int, j2) ==> dd
                                    <= lp@[bi as int] + rp@[j2] - c[bi as int][j2]->Some_0),
                        decreases n - bj,
                    {
                        if !visited[bj] {
                            proof {
                                assert(mat_view(costs)[bi as int][bj as int]
                                    == costs@[bi as int]@[bj as int]);
                            }
                            match costs[bi][bj] {
                                Some(cv) => {
                                    proof {
                                        assert(crossing(
                                            c,
                                            vl@,
                                            visited@,
                                            bi as int,
                                            bj as int,
                                        ));
                                        assert(!tight(c, lp@, rp@, bi as int, bj as int)) by {
                                            if tight(c, lp@, rp@, bi as int, bj as int) {
                                                if bi == k {
                                                    assert(visited@[bj as int]);
                                                } else {
                                                    let j3 = choose|j3: int|
                                                        0 <= j3 < n && visited@[j3] && rm2@[j3]
                                                            == Some(bi);
                                                    assert(rm2@[j3]->Some_0 as int == bi);
                                                    assert(visited@[bj as int]);
                                                }
                                            }
                                        }
                                        assert(c[bi as int][bj as int]->Some_0 <= lp@[bi as int]
                                            + rp@[bj as int]);
                                    }
                                    let slack = lp[bi] + rp[bj] - (cv as i128);
                                    proof {
                                        assert(slack >= 1);
                                        assert(slack <= 2 * (MAX_COST as int) + sd);
                                    }
                                    best = match best {
                                        None => Some(slack),
                                        Some(d) => if slack < d {
                                            Some(slack)
                                        } else {
                                            Some(d)
                                        },
                                    };
                                },
                                None => {},
                            }
                        }
                        bj = bj + 1;
                    }
                }
                bi = bi + 1;
            }

            let d = match best {
                None => {
                    // Dead branch: no allowed cell crosses out of the tree,
                    // so the tree is a certificate of infeasibility — which
                    // the stage-one matching contradicts.
                    proof {
                        assert forall|j2: int|
                            0 <= j2 < n && allowed(c, k as int, j2) implies visited@[j2] by {
                            assert(!crossing(c, vl@, visited@, k as int, j2));
                        }
                        assert forall|j3: int, j2: int|
                            0 <= j3 < n && visited@[j3] && 0 <= j2 < n && allowed(
                                c,
                                rm2@[j3]->Some_0 as int,
                                j2,
                            ) implies visited@[j2] by {
                            assert(rm2@[j3] is Some);
                            let iw = rm2@[j3]->Some_0;
                            assert(vl@[iw as int]) by {
                                assert(visited@[j3] && rm2@[j3] == Some(iw));
                            }
                            assert(!crossing(c, vl@, visited@, iw as int, j2));
                        }
                        lemma_failed_search_infeasible(c, rm2@, visited@, k);
                        assert(is_perfect_matching(c, gm1));
                        assert(false);
                    }
                    return Some(m1);
                },
                Some(d) => d,
            };

            let ghost lp_pre = lp@;
            let ghost rp_pre = rp@;
            let mut t: usize = 0;
            while t < n
                invariant
                    t <= n,
                    lp@.len() == n,
                    rp@.len() == n,
                    forall|i2: int|
                        0 <= i2 < n ==> #[trigger] lp@[i2] == if i2 < t && vl@[i2] {
                            lp_pre[i2] - d
                        } else {
                            lp_pre[i2] as int
                        },
                    forall|j2: int|
                        0 <= j2 < n ==> #[trigger] rp@[j2] == if j2 < t && visited@[j2] {
                            rp_pre[j2] + d
                        } else {
                            rp_pre[j2] as int
                        },
                decreases n - t,
            {
                if vl[t] {
                    let nv = lp[t] - d;
                    lp.set(t, nv);
                }
                if visited[t] {
                    let nv = rp[t] + d;
                    rp.set(t, nv);
                }
                t = t + 1;
            }
            proof {
                lemma_sum_masked(lp_pre, lp@, vl@, d as int, n as int);
                lemma_sum_masked(rp_pre, rp@, visited@, -(d as int), n as int);
                lemma_count_congruent(visited@, visited@, n as int);
                assert(count_true_upto(visited@, n as int) == crn);
                assert(sum_pots(lp@) == slp - (d as int) * (cl as int));
                assert((-(d as int)) * crn == -((d as int) * crn)) by (nonlinear_arith);
                assert(sum_pots(rp@) == srp + (d as int) * crn);
                slp = slp - (d as int) * (cl as int);
                srp = srp + (d as int) * crn;
                sd = sd + d;
                assert((d as int) * (cl as int) == (d as int) * crn + d) by (nonlinear_arith)
                    requires
                        cl as int == crn + 1,
                ;
                assert(slp + srp == d0 - sd);
                // The updated potentials stay feasible and keep every
                // matched cell tight.
                assert(dual_feasible(c, lp@, rp@)) by {
                    assert forall|i2: int, j2: int|
                        0 <= i2 < n && 0 <= j2 < n && allowed(c, i2, j2) implies c[i2][
                        j2]->Some_0 <= #[trigger] (lp@[i2] + rp@[j2]) by {
                        if vl@[i2] && !visited@[j2] {
                            assert(crossing(c, vl@, visited@, i2, j2));
                            assert(d <= lp_pre[i2] + rp_pre[j2] - c[i2][j2]->Some_0);
                        } else {
                            assert(c[i2][j2]->Some_0 <= lp_pre[i2] + rp_pre[j2]);
                        }
                    }
                }
                assert(rm_tight(c, lp@, rp@, rm2@)) by {
                    assert forall|j3: int| 0 <= j3 < n implies match #[trigger] rm2@[j3] {
                        Some(i2) => tight(c, lp@, rp@, i2 as int, j3),
                        None => true,
                    } by {
                        match rm2@[j3] {
                            Some(i2) => {
                                assert(tight(c, lp_pre, rp_pre, i2 as int, j3));
                                if visited@[j3] {
                                    assert(vl@[i2 as int]) by {
                                        assert(visited@[j3] && rm2@[j3] == Some(i2));
                                    }
                                } else {
                                    assert(!vl@[i2 as int]) by {
                                        if vl@[i2 as int] {
                                            assert(i2 != k) by {
                                                if i2 == k {
                                                    assert(left_matched(rm2@, k));
                                                }
                                            }
                                            let j4 = choose|j4: int|
                                                0 <= j4 < n && visited@[j4] && rm2@[j4] == Some(
                                                    i2,
                                                );
                                            assert(rm2@[j4] == rm2@[j3]);
                                            if j4 < j3 {
                                                assert(false);
                                            } else {
                                                assert(false);
                                            }
                                        }
                                    }
                                }
                            },
                            None => {},
                        }
                    }
                }
                // The dual objective stays at least the stage-one cost, so
                // the total relaxation keeps its bound.
                lemma_cost_le_pots(c, lp@, rp@, gm1, n as int);
                lemma_perm_sum(rp@, gm1);
                lemma_cost_lower(c, gm1, n as int);
                assert(slp + srp >= -(n as int) * (MAX_COST as int));
                assert(sd <= 2 * (n as int) * (MAX_COST as int));
            }
        }
        k = k + 1;
    }

    let m2 = build_assignment(costs, &rm2);
    proof {
        assert forall|kk: int|
            0 <= kk < n implies tight(c, lp@, rp@, kk, #[trigger] m2@[kk] as int) by {
            assert(rm2@[m2@[kk] as int] == Some(kk as usize));
        }
        assert forall|m_any: Seq<usize>| is_perfect_matching(c, m_any) implies cost(c, m_any)
            <= cost(c, m2@) by {
            lemma_tight_matching_is_maximal(c, lp@, rp@, m2@, m_any);
        }
    }
    Some(m2)
}

} // verus!